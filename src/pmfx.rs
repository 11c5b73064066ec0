//! The pmfx engine: builds views, textures, pipelines and render graphs from the merged
//! declarative data on demand, and rebuilds what changes on reload or window resize.
//!
//! The engine owns the bookkeeping; the GPU objects themselves are made and destroyed by
//! the device driver that runs it, which drains the queued `DeviceCommand`s in order.
use vstd::prelude::*;
use crate::data::{
    clone_names, GraphViewInfo, Pipeline, PmfxFile, PmfxHash, ResourceState, TextureInfo, TextureSizeRatio, ViewInfo,
};
use crate::error::{Missing, PmfxError};
use crate::graph::{
    compile, compile_render_graph, ints, lemma_schedule_valid, names_of, schedule, steps_of, valid_order, CompiledGraph,
    GraphEntry, Step, Tracking,
};
use crate::names::{unique_keys, NameMap};
use crate::texture::{
    describes, is_transitioned, needs_transitions, ratio_dimension, ratio_size, to_gfx_texture_info, TextureDesc,
};
use crate::transitions::{consistent, lemma_compile_states, nodes_ok, replay};
use crate::views;
use vstd::string::StringExecFns;

verus! {

/// A texture the engine has created, with what it was created from.
pub struct TextureEntry {
    /// Content hash of the declaration it was created from.
    pub hash: PmfxHash,
    /// The window the texture follows, if any.
    pub ratio: Option<TextureSizeRatio>,
    /// Current (width, height).
    pub size: (u64, u64),
    pub samples: u32,
    pub format: String,
}

/// The attachment formats of a render pass; pipelines are built per pass format.
pub struct PassFormat {
    pub samples: u32,
    pub colour_formats: Vec<String>,
    pub depth_format: Option<String>,
}

/// Spec value of a pass format.
pub type PassFormatView = (u32, Seq<Seq<char>>, Option<Seq<char>>);

impl View for PassFormat {
    type V = PassFormatView;

    open spec fn view(&self) -> PassFormatView {
        (
            self.samples,
            names_of(self.colour_formats@),
            match self.depth_format {
                Some(f) => Some(f@),
                None => None,
            },
        )
    }
}

/// Whether two pass formats are the same.
pub fn same_format(a: &PassFormat, b: &PassFormat) -> (r: bool)
    ensures
        r == (a@ == b@),
{
    if a.samples != b.samples || a.colour_formats.len() != b.colour_formats.len() {
        assert(names_of(a.colour_formats@).len() == a.colour_formats@.len());
        assert(names_of(b.colour_formats@).len() == b.colour_formats@.len());
        return false;
    }
    let mut i: usize = 0;
    while i < a.colour_formats.len()
        invariant
            a.colour_formats@.len() == b.colour_formats@.len(),
            i <= a.colour_formats@.len(),
            forall|j: int| 0 <= j < i ==> a.colour_formats@[j]@ == b.colour_formats@[j]@,
        decreases a.colour_formats@.len() - i,
    {
        if a.colour_formats[i] != b.colour_formats[i] {
            assert(names_of(a.colour_formats@)[i as int] != names_of(b.colour_formats@)[i as int]);
            return false;
        }
        i += 1;
    }
    assert(names_of(a.colour_formats@) =~= names_of(b.colour_formats@));
    match (&a.depth_format, &b.depth_format) {
        (Some(x), Some(y)) => *x == *y,
        (None, None) => true,
        _ => false,
    }
}

/// The render permutations of a pipeline (those without a compute shader) as built:
/// mask and build hash, in declaration order.
pub open spec fn render_permutations(perms: Seq<(u32, Pipeline)>) -> Seq<(u32, PmfxHash)> {
    perms.filter(|e: (u32, Pipeline)| e.1.cs is None).map_values(|e: (u32, Pipeline)| (e.0, e.1.hash))
}

/// Textures whose state the graph compiler follows, in declaration order: those that
/// are sampled and also written as render target or depth stencil.
pub open spec fn seed_keys(t: Seq<(String, TextureInfo)>) -> Seq<Seq<char>> {
    t.filter(|e: (String, TextureInfo)| needs_transitions(e.1.usage@)).map_values(|e: (String, TextureInfo)| e.0@)
}

/// The ratio ties a texture to window `w`.
pub open spec fn follows_window(r: Option<TextureSizeRatio>, w: Seq<char>) -> bool {
    r matches Some(q) && q.window@ == w
}

/// Some entry before position `i` has key `k`.
pub open spec fn key_among(e: Seq<(String, TextureInfo)>, i: int, k: Seq<char>) -> bool {
    exists|m: int| 0 <= m < i && #[trigger] e[m].0@ == k
}

/// Every texture of `keys` starts in shader-resource state.
pub open spec fn seed_states(keys: Seq<Seq<char>>) -> Tracking {
    Map::new(|k: Seq<char>| keys.contains(k), |k: Seq<char>| ResourceState::ShaderResource)
}

/// The name of a compiled entry.
pub open spec fn entry_name(s: Step) -> Seq<char> {
    match s {
        Step::Barrier { view, texture, .. } => "barrier_"@ + view + "-"@ + texture,
        Step::Resolve { view, texture, .. } => "barrier_resolve-"@ + view + "-"@ + texture,
        Step::Node { name } => name,
    }
}

/// The name of a compiled entry.
pub fn name_of_entry(e: &GraphEntry) -> (r: String)
    ensures
        r@ == entry_name(e@),
{
    match e {
        GraphEntry::Barrier { view, texture, .. } => {
            let mut r = String::from_str("barrier_");
            r.append(view.as_str());
            r.append("-");
            r.append(texture.as_str());
            r
        },
        GraphEntry::Resolve { view, texture, .. } => {
            let mut r = String::from_str("barrier_resolve-");
            r.append(view.as_str());
            r.append("-");
            r.append(texture.as_str());
            r
        },
        GraphEntry::Node { name } => name.clone(),
    }
}

/// One submission of a frame.
pub enum Submission {
    /// The barrier command buffer built for entry `index` of the compiled graph.
    Barrier { index: usize },
    /// The command buffer of the named view, closed first.
    View { name: String },
}

/// What executing `steps` submits, given the built views.
pub open spec fn submissions_of(steps: Seq<Step>, views: Map<Seq<char>, views::View>) -> Seq<(bool, int, Seq<char>)>
    decreases steps.len(),
{
    if steps.len() == 0 {
        Seq::empty()
    } else {
        let prev = submissions_of(steps.drop_last(), views);
        let i = steps.len() - 1;
        match steps.last() {
            Step::Node { name } => if views.contains_key(name) {
                prev.push((false, i, name))
            } else {
                prev
            },
            _ => prev.push((true, i, Seq::empty())),
        }
    }
}

/// The spec value of a submission: (is a barrier, entry index, view name).
pub open spec fn submission_view(s: Submission) -> (bool, int, Seq<char>) {
    match s {
        Submission::Barrier { index } => (true, index as int, Seq::empty()),
        Submission::View { name } => (false, -1, name@),
    }
}

/// The value `name` selects in `map`, or the default.
pub fn info_from_state<T: Default + Copy>(name: &Option<String>, map: &NameMap<T>) -> (r: T)
    requires
        map.wf(),
    ensures
        (name matches Some(n) && map@.contains_key(n@)) ==> r == map@[name->Some_0@],
        !(name matches Some(n) && map@.contains_key(n@)) ==> call_ensures(T::default, (), r),
{
    match name {
        Some(n) => match map.get(n) {
            Some(v) => *v,
            None => T::default(),
        },
        None => T::default(),
    }
}

/// Source files a reload watcher follows for the pmfx data, and when it started.
pub struct PmfxReloadResponder {
    pub files: Vec<String>,
    /// Time the watcher started or last rebuilt, in seconds.
    pub start_time: u64,
}

impl PmfxReloadResponder {
    /// A responder following no files, started at `start_time`.
    pub fn new(start_time: u64) -> (r: Self)
        ensures
            r.files@.len() == 0,
            r.start_time == start_time,
    {
        PmfxReloadResponder { files: Vec::new(), start_time }
    }

    pub fn add_file(&mut self, filepath: &str)
        ensures
            final(self).files@.len() == old(self).files@.len() + 1,
            final(self).files@.drop_last() == old(self).files@,
            final(self).files@.last()@ == filepath@,
            final(self).start_time == old(self).start_time,
    {
        self.files.push(filepath.to_owned());
        assert(self.files@.drop_last() =~= old(self).files@);
    }

    pub fn get_files(&self) -> (r: Vec<String>)
        ensures
            r@ == self.files@,
    {
        clone_names(&self.files)
    }

    pub fn get_last_mtime(&self) -> (r: u64)
        ensures
            r == self.start_time,
    {
        self.start_time
    }
}

/// The targets of a view: its render targets, then its depth stencils.
pub open spec fn targets_of(vi: ViewInfo) -> Seq<Seq<char>> {
    names_of(vi.render_target@) + names_of(vi.depth_stencil@)
}

/// The characters of an optional name.
pub open spec fn opt_view(o: Option<String>) -> Option<Seq<char>> {
    match o {
        Some(x) => Some(x@),
        None => None,
    }
}

/// A state name that is declared in `states`, or none for the device default.
pub open spec fn resolved_state(name: Option<String>, states: Map<Seq<char>, ()>) -> Option<Seq<char>> {
    match name {
        Some(n) => if states.contains_key(n@) { Some(n@) } else { None },
        None => None,
    }
}

/// The given topology, or a triangle list.
pub open spec fn resolved_topology(t: Option<String>) -> Seq<char> {
    match t {
        Some(x) => x@,
        None => "TriangleList"@,
    }
}

/// The state named by `name` if it is declared in `states`.
pub fn resolve_state(name: &Option<String>, states: &NameMap<()>) -> (r: Option<String>)
    requires
        states.wf(),
    ensures
        opt_view(r) == resolved_state(*name, states@),
{
    match name {
        Some(n) => if states.contains_key(n) {
            Some(n.clone())
        } else {
            None
        },
        None => None,
    }
}

/// The topology of a pipeline: as given, else a triangle list.
pub fn resolve_topology(t: &Option<String>) -> (r: String)
    ensures
        r@ == resolved_topology(*t),
{
    match t {
        Some(x) => x.clone(),
        None => String::from_str("TriangleList"),
    }
}

/// A mesh: vertex and index buffers and the number of indices to draw.
#[derive(Clone)]
pub struct Mesh<B> {
    pub vb: B,
    pub ib: B,
    pub num_indices: u32,
}

/// Where a loaded pmfx source came from, and when it was last read.
pub struct SourceInfo {
    pub filepath: String,
    pub modified_time: u64,
}

/// Work for the device, queued by the engine in the order it must be done.
pub enum DeviceCommand {
    CreateTexture { name: String, desc: TextureDesc },
    DestroyTexture { name: String },
    /// Create the render pass and command buffer of the named graph view (see `get_view`).
    CreateView { name: String },
    DestroyView { name: String },
    CreateShader { file: String, folder: String },
    DestroyShader { file: String },
    /// Build a render pipeline permutation; undeclared states are left to the device
    /// default.
    CreateRenderPipeline {
        format: usize,
        name: String,
        permutation: u32,
        raster_state: Option<String>,
        depth_stencil_state: Option<String>,
        topology: String,
    },
    CreateComputePipeline { name: String, permutation: u32 },
    /// Destroy one permutation of a render pipeline built for a pass format.
    DestroyRenderPipeline { format: usize, name: String, permutation: u32 },
    /// Rebuild the barrier command buffers from the compiled render graph.
    BuildBarriers,
}

/// Pmfx instance: the merged data and everything built from it.
pub struct Pmfx<C> {
    /// The merged declarative data.
    pub pmfx: PmfxFile,
    /// Loaded sources by pmfx name.
    pub sources: NameMap<SourceInfo>,
    /// Folder of the source each pipeline was declared in.
    pub pmfx_folders: NameMap<String>,
    /// Window sizes by window name.
    pub window_sizes: NameMap<(u32, u32)>,
    /// Built textures.
    pub textures: NameMap<TextureEntry>,
    /// Built views by graph node name.
    pub views: NameMap<views::View>,
    /// Graph views that render to each texture.
    pub view_texture_refs: NameMap<Vec<String>>,
    /// Pass formats seen so far; a view refers to its format by position.
    pub formats: Vec<PassFormat>,
    /// Per pass format: pipeline name to its built permutations (mask, build hash).
    pub render_pipelines: Vec<NameMap<Vec<(u32, PmfxHash)>>>,
    /// Built compute pipelines with their build hash.
    pub compute_pipelines: NameMap<PmfxHash>,
    /// The compiled active render graph.
    pub compiled: CompiledGraph,
    /// Built shaders with the hash they were built from.
    pub shaders: NameMap<PmfxHash>,
    /// Camera constants by camera name.
    pub cameras: NameMap<C>,
    /// Errors reported by render functions, by view name.
    pub view_errors: NameMap<String>,
    /// Name of the render graph compiled last.
    pub active_render_graph: String,
    /// Work for the device, oldest first.
    pub commands: Vec<DeviceCommand>,
}

impl<C> Pmfx<C> {
    pub open spec fn wf(&self) -> bool {
        &&& self.pmfx.wf()
        &&& self.sources.wf()
        &&& self.pmfx_folders.wf()
        &&& self.window_sizes.wf()
        &&& self.textures.wf()
        &&& self.shaders.wf()
        &&& self.cameras.wf()
        &&& self.view_errors.wf()
        &&& self.views.wf()
        &&& self.view_texture_refs.wf()
        &&& self.compute_pipelines.wf()
        &&& self.render_pipelines@.len() == self.formats@.len()
        &&& forall|i: int| 0 <= i < self.render_pipelines@.len() ==> #[trigger] self.render_pipelines@[i].wf()
        &&& forall|k: Seq<char>| #[trigger] self.views@.contains_key(k) ==> self.views@[k].format < self.formats@.len()
    }

    /// Everything but the built textures and the queued commands is the same in `a` and `b`.
    pub open spec fn same_but_textures(a: Self, b: Self) -> bool {
        &&& b.pmfx == a.pmfx
        &&& b.sources == a.sources
        &&& b.pmfx_folders == a.pmfx_folders
        &&& b.window_sizes == a.window_sizes
        &&& b.shaders == a.shaders
        &&& b.cameras == a.cameras
        &&& b.view_errors == a.view_errors
        &&& b.active_render_graph == a.active_render_graph
        &&& b.views == a.views
        &&& b.view_texture_refs == a.view_texture_refs
        &&& b.formats == a.formats
        &&& b.render_pipelines == a.render_pipelines
        &&& b.compute_pipelines == a.compute_pipelines
        &&& b.compiled == a.compiled
    }

    /// A new, empty instance.
    pub fn create() -> (r: Self)
        ensures
            r.wf(),
            r.pmfx.textures@.is_empty(),
            r.pmfx.views@.is_empty(),
            r.pmfx.render_graphs@.is_empty(),
            r.sources@.is_empty(),
            r.textures@.is_empty(),
            r.window_sizes@.is_empty(),
            r.commands@.len() == 0,
            r.views@.is_empty(),
            r.compiled.entries@.len() == 0,
    {
        Pmfx {
            pmfx: PmfxFile::new(),
            sources: NameMap::new(),
            pmfx_folders: NameMap::new(),
            window_sizes: NameMap::new(),
            textures: NameMap::new(),
            shaders: NameMap::new(),
            cameras: NameMap::new(),
            view_errors: NameMap::new(),
            active_render_graph: String::new(),
            commands: Vec::new(),
            views: NameMap::new(),
            view_texture_refs: NameMap::new(),
            formats: Vec::new(),
            render_pipelines: Vec::new(),
            compute_pipelines: NameMap::new(),
            compiled: CompiledGraph {
                entries: Vec::new(),
                unscheduled: Vec::new(),
                missing_dependencies: Vec::new(),
                resolve_errors: Vec::new(),
            },
        }
    }

    /// The size a declared texture gets now: its own size, or its window's size scaled by
    /// its ratio; none when its window has no known size.
    pub open spec fn size_for(&self, info: TextureInfo) -> Option<(u64, u64)> {
        match info.ratio {
            None => Some((info.width, info.height)),
            Some(r) => if self.window_sizes@.contains_key(r.window@) {
                let w = self.window_sizes@[r.window@];
                Some((
                    ratio_dimension(w.0, info.samples, r.scale_num, r.scale_den) as u64,
                    ratio_dimension(w.1, info.samples, r.scale_num, r.scale_den) as u64,
                ))
            } else {
                None
            },
        }
    }

    /// Width and height for a declared texture, following its window when it has a ratio.
    pub fn get_texture_size_from_ratio(&self, info: &TextureInfo) -> (r: Result<(u64, u64), PmfxError>)
        requires
            self.wf(),
            info.ratio matches Some(q) ==> q.scale_den > 0,
        ensures
            r is Ok <==> self.size_for(*info) is Some,
            r matches Ok(size) ==> self.size_for(*info) == Some(size),
            r matches Err(e) ==> e matches PmfxError::NotFound { kind: Missing::Window, name } && info.ratio
                matches Some(q) && name@ == q.window@,
    {
        match &info.ratio {
            Some(ratio) => match self.window_sizes.get(&ratio.window) {
                Some(size) => Ok(ratio_size(*size, info.samples, ratio)),
                None => Err(PmfxError::NotFound { kind: Missing::Window, name: ratio.window.clone() }),
            },
            None => Ok((info.width, info.height)),
        }
    }

    /// The texture `name` is built: nothing to do, or the declaration is missing.
    pub open spec fn texture_present_or_undeclared(&self, name: Seq<char>) -> bool {
        self.textures@.contains_key(name) || !self.pmfx.textures@.contains_key(name)
    }

    /// The effect of `create_texture(name)` from `a` to `b`, returning `r`.
    pub open spec fn texture_creation(a: Self, b: Self, name: Seq<char>, r: Result<(), PmfxError>) -> bool {
        if a.texture_present_or_undeclared(name) {
            r is Ok && b == a
        } else {
            let info = a.pmfx.textures@[name];
            match a.size_for(info) {
                None => r matches Err(e) && e matches PmfxError::NotFound { kind: Missing::Window, .. } && b == a,
                Some(size) => {
                    &&& r is Ok
                    &&& b.textures@ == a.textures@.insert(
                        name,
                        b.textures@[name],
                    )
                    &&& b.textures@[name].hash == info.hash
                    &&& b.textures@[name].ratio == info.ratio
                    &&& b.textures@[name].size == size
                    &&& b.textures@[name].samples == info.samples
                    &&& b.textures@[name].format@ == info.format@
                    &&& b.commands@.len() == a.commands@.len() + 1
                    &&& b.commands@.take(a.commands@.len() as int) == a.commands@
                    &&& b.commands@.last() matches DeviceCommand::CreateTexture { name: n, desc }
                        && n@ == name && describes(desc, info, size)
                    &&& Self::same_but_textures(a, b)
                },
            }
        }
    }

    /// Creates a declared texture unless it is already built, queueing its creation for
    /// the device. Fails only when it follows a window whose size is unknown.
    pub fn create_texture(&mut self, texture_name: &str) -> (r: Result<(), PmfxError>)
        requires
            old(self).wf(),
        ensures
            final(self).wf(),
            Self::texture_creation(*old(self), *final(self), texture_name@, r),
            Self::queued_new(*old(self), *final(self)),
            Self::built_within(*old(self), *final(self)),
    {
        proof {
            Self::lemma_queued_refl(*self);
        }
        let name = texture_name.to_owned();
        if self.textures.contains_key(&name) {
            return Ok(());
        }
        match self.pmfx.textures.get(&name) {
            None => Ok(()),
            Some(info) => {
                proof {
                    assert(self.pmfx.textures@.contains_key(name@));
                }
                match self.get_texture_size_from_ratio(info) {
                    Err(e) => Err(e),
                    Ok(size) => {
                        let desc = to_gfx_texture_info(info, size);
                        let ratio = match &info.ratio {
                            Some(q) => Some(q.duplicate()),
                            None => None,
                        };
                        let entry = TextureEntry {
                            hash: info.hash,
                            ratio,
                            size,
                            samples: info.samples,
                            format: info.format.clone(),
                        };
                        let ghost cmds = self.commands@;
                        self.commands.push(DeviceCommand::CreateTexture { name: name.clone(), desc });
                        self.textures.insert(name, entry);
                        proof {
                            assert(self.commands@.take(cmds.len() as int) =~= cmds);
                            assert(self.textures@ =~= old(self).textures@.insert(name@, self.textures@[name@]));
                            assert(Self::creates_new(*old(self), self.commands@[cmds.len() as int]));
                            assert(Self::built_within(*old(self), *self)) by {
                                assert forall|f: int, n: Seq<char>, m: u32| #[trigger] Self::has_permutation(*old(self), f, n, m)
                                    implies Self::has_permutation(*self, f, n, m) by {
                                    let i = choose|i: int| 0 <= i < old(self).render_pipelines@[f]@[n]@.len()
                                        && #[trigger] old(self).render_pipelines@[f]@[n]@[i].0 == m;
                                    assert(self.render_pipelines@[f]@[n]@[i].0 == m);
                                }
                            }
                        }
                        Ok(())
                    },
                }
            },
        }
    }

    /// Records that graph view `view` renders to texture `texture`.
    fn add_texture_ref(&mut self, texture: &String, view: &String)
        requires
            old(self).wf(),
        ensures
            final(self).wf(),
            final(self).view_texture_refs@.contains_key(texture@),
            names_of(final(self).view_texture_refs@[texture@]@).contains(view@),
            forall|k: Seq<char>| k != texture@ ==> #[trigger] final(self).view_texture_refs@.contains_key(k)
                == old(self).view_texture_refs@.contains_key(k) && (old(self).view_texture_refs@.contains_key(k)
                ==> final(self).view_texture_refs@[k] == old(self).view_texture_refs@[k]),
            old(self).view_texture_refs@.contains_key(texture@) ==> forall|v: Seq<char>|
                #[trigger] names_of(old(self).view_texture_refs@[texture@]@).contains(v)
                    ==> names_of(final(self).view_texture_refs@[texture@]@).contains(v),
            Self::same_but_refs(*old(self), *final(self)),
    {
        let mut list = match self.view_texture_refs.get(texture) {
            Some(l) => clone_names(l),
            None => Vec::new(),
        };
        let ghost before = list@;
        if !crate::graph::contains_name(&list, view) {
            list.push(view.clone());
            proof {
                assert(names_of(list@)[before.len() as int] == view@);
                assert forall|v: Seq<char>| #[trigger] names_of(before).contains(v) implies names_of(list@).contains(v) by {
                    let j = choose|j: int| 0 <= j < names_of(before).len() && names_of(before)[j] == v;
                    assert(names_of(list@)[j] == v);
                }
            }
        }
        self.view_texture_refs.insert(texture.clone(), list);
    }

    /// Everything but the texture back-references is the same in `a` and `b`.
    pub open spec fn same_but_refs(a: Self, b: Self) -> bool {
        &&& b.pmfx == a.pmfx
        &&& b.sources == a.sources
        &&& b.pmfx_folders == a.pmfx_folders
        &&& b.window_sizes == a.window_sizes
        &&& b.shaders == a.shaders
        &&& b.cameras == a.cameras
        &&& b.view_errors == a.view_errors
        &&& b.active_render_graph == a.active_render_graph
        &&& b.views == a.views
        &&& b.textures == a.textures
        &&& b.formats == a.formats
        &&& b.render_pipelines == a.render_pipelines
        &&& b.compute_pipelines == a.compute_pipelines
        &&& b.compiled == a.compiled
        &&& b.commands == a.commands
    }

    /// Position of `format` among the known pass formats, adding it if it is new.
    fn intern_format(&mut self, format: PassFormat) -> (r: usize)
        requires
            old(self).wf(),
        ensures
            final(self).wf(),
            r < final(self).formats@.len(),
            final(self).formats@[r as int]@ == format@,
            old(self).formats@.len() <= final(self).formats@.len(),
            forall|i: int| 0 <= i < old(self).formats@.len() ==> #[trigger] final(self).formats@[i] == old(self).formats@[i],
            forall|i: int| 0 <= i < old(self).formats@.len() ==> #[trigger] final(self).render_pipelines@[i] == old(self).render_pipelines@[i],
            forall|i: int| old(self).formats@.len() <= i < final(self).formats@.len() ==> (#[trigger] final(self).render_pipelines@[i])@.is_empty(),
            final(self).views == old(self).views,
            final(self).textures == old(self).textures,
            final(self).pmfx == old(self).pmfx,
            final(self).sources == old(self).sources,
            final(self).view_texture_refs == old(self).view_texture_refs,
            final(self).commands == old(self).commands,
            final(self).window_sizes == old(self).window_sizes,
            final(self).shaders == old(self).shaders,
            final(self).compute_pipelines == old(self).compute_pipelines,
    {
        let mut i: usize = 0;
        while i < self.formats.len()
            invariant
                i <= self.formats@.len(),
                *self == *old(self),
                self.wf(),
            decreases self.formats@.len() - i,
        {
            if same_format(&self.formats[i], &format) {
                return i;
            }
            i += 1;
        }
        let n = self.formats.len();
        self.formats.push(format);
        self.render_pipelines.push(NameMap::new());
        proof {
            assert forall|i: int| 0 <= i < self.render_pipelines@.len() implies #[trigger] self.render_pipelines@[i].wf() by {
                if i < n {
                    assert(self.render_pipelines@[i] == old(self).render_pipelines@[i]);
                }
            }
        }
        n
    }

    /// The size of a view: that of its first target (render targets first, then depth stencils).
    pub open spec fn view_size(&self, info: ViewInfo) -> (u64, u64) {
        if targets_of(info).len() > 0 {
            self.textures@[targets_of(info)[0]].size
        } else {
            (0, 0)
        }
    }

    /// Texture `t` is built in `a`, or declared with a size that can be resolved now.
    pub open spec fn target_ok(a: Self, t: Seq<char>) -> bool {
        a.textures@.contains_key(t) || (a.pmfx.textures@.contains_key(t) && a.size_for(a.pmfx.textures@[t]) is Some)
    }

    /// Every target of `vi` is built in `a` or can be built.
    pub open spec fn targets_buildable(a: Self, vi: ViewInfo) -> bool {
        forall|j: int| 0 <= j < targets_of(vi).len() ==> Self::target_ok(a, #[trigger] targets_of(vi)[j])
    }

    /// The built targets of `vi` share the sample count and size of the first target.
    pub open spec fn targets_agree(b: Self, vi: ViewInfo) -> bool {
        forall|j: int| 0 <= j < targets_of(vi).len() ==> {
            &&& b.textures@[#[trigger] targets_of(vi)[j]].samples == b.textures@[targets_of(vi)[0]].samples
            &&& b.textures@[targets_of(vi)[j]].size == b.textures@[targets_of(vi)[0]].size
        }
    }


    /// The view of graph node `gv` is built for declared view `vi` at the current size of
    /// its targets, which are all built.
    pub open spec fn view_fresh(s: Self, gv: Seq<char>, vi: ViewInfo) -> bool {
        &&& s.views@.contains_key(gv)
        &&& s.views@[gv].size == s.view_size(vi)
        &&& forall|j: int| 0 <= j < vi.render_target@.len() ==> #[trigger] s.textures@.contains_key(vi.render_target@[j]@)
        &&& forall|j: int| 0 <= j < vi.depth_stencil@.len() ==> #[trigger] s.textures@.contains_key(vi.depth_stencil@[j]@)
    }

    /// A fresh view stays fresh while built views and textures are kept.
    pub proof fn lemma_view_fresh_kept(a: Self, b: Self, gv: Seq<char>, vi: ViewInfo)
        requires
            Self::view_fresh(a, gv, vi),
            forall|k: Seq<char>| #[trigger] a.views@.contains_key(k) ==> b.views@.contains_key(k) && b.views@[k] == a.views@[k],
            forall|k: Seq<char>| #[trigger] a.textures@.contains_key(k) ==> b.textures@.contains_key(k) && b.textures@[k] == a.textures@[k],
        ensures
            Self::view_fresh(b, gv, vi),
    {
        assert forall|j: int| 0 <= j < vi.render_target@.len() implies #[trigger] b.textures@.contains_key(vi.render_target@[j]@) by {
            assert(a.textures@.contains_key(vi.render_target@[j]@));
        }
        assert forall|j: int| 0 <= j < vi.depth_stencil@.len() implies #[trigger] b.textures@.contains_key(vi.depth_stencil@[j]@) by {
            assert(a.textures@.contains_key(vi.depth_stencil@[j]@));
        }
        if vi.render_target@.len() > 0 {
            assert(targets_of(vi)[0] == vi.render_target@[0]@);
            assert(a.textures@.contains_key(vi.render_target@[0]@));
        } else if vi.depth_stencil@.len() > 0 {
            assert(targets_of(vi)[0] == vi.depth_stencil@[0]@);
            assert(a.textures@.contains_key(vi.depth_stencil@[0]@));
        }
        assert(a.views@.contains_key(gv));
    }

    /// Some node among the first `i` of `g` is named `k`.
    pub open spec fn node_among(g: Seq<(String, GraphViewInfo)>, i: int, k: Seq<char>) -> bool {
        exists|m: int| 0 <= m < i && #[trigger] g[m].0@ == k
    }


    /// Every node of `g` with a declared view whose view `a` lacked has a fresh view in `b`.
    pub open spec fn nodes_fresh(a: Self, b: Self, g: Seq<(String, GraphViewInfo)>) -> bool {
        forall|j: int|
            0 <= j < g.len() && a.pmfx.views@.contains_key(g[j].1.view@) && !a.views@.contains_key(#[trigger] g[j].0@)
                ==> Self::view_fresh(b, g[j].0@, a.pmfx.views@[g[j].1.view@])
    }


    /// Every node of `g` whose view `a` lacks and declares has targets that are buildable
    /// in `a` and agree in `b`.
    pub open spec fn graph_views_ok(a: Self, b: Self, g: Seq<(String, GraphViewInfo)>) -> bool {
        forall|j: int|
            0 <= j < g.len() && a.pmfx.views@.contains_key(g[j].1.view@) && !a.views@.contains_key(#[trigger] g[j].0@)
                ==> Self::targets_buildable(a, a.pmfx.views@[g[j].1.view@]) && Self::targets_agree(b, a.pmfx.views@[g[j].1.view@])
    }

    /// The effect of `create_view(view_name, gv, info)` from `a` to `b`, returning `r`.
    pub open spec fn view_creation(a: Self, b: Self, view_name: Seq<char>, gv: Seq<char>, info: GraphViewInfo, r: Result<(), PmfxError>) -> bool {
        &&& ((a.views@.contains_key(gv) || !a.pmfx.views@.contains_key(view_name))
                ==> r is Ok && b == a)
        &&& (Self::keeps_built(a, b))
        &&& (forall|k: Seq<char>| #[trigger] b.textures@.contains_key(k) ==> Self::target_ok(a, k))
        &&& Self::grows_declared(a, b)
        &&& (!a.views@.contains_key(gv) && a.pmfx.views@.contains_key(view_name) ==> (r is Ok <==> (
            Self::targets_buildable(a, a.pmfx.views@[view_name]) && Self::targets_agree(b, a.pmfx.views@[view_name]))))
        &&& (r matches Err(e) ==> {
            ||| e matches PmfxError::NotFound { kind: Missing::Window, .. }
            ||| e matches PmfxError::NotFound { kind: Missing::Texture, name } && !a.pmfx.textures@.contains_key(name@)
            ||| e is SampleCountMismatch
            ||| e is SizeMismatch
        })
        &&& (b.pmfx == a.pmfx)
        &&& (b.sources == a.sources)
        &&& (b.window_sizes == a.window_sizes)
        &&& (forall|k: Seq<char>| #[trigger] a.views@.contains_key(k) ==> b.views@.contains_key(k)
                && b.views@[k] == a.views@[k])
        &&& (forall|k: Seq<char>| #[trigger] b.views@.contains_key(k) ==> a.views@.contains_key(k) || k == gv)
        &&& (forall|k: Seq<char>| #[trigger] a.textures@.contains_key(k) ==> b.textures@.contains_key(k)
                && b.textures@[k] == a.textures@[k])
        &&& (r is Ok && !a.views@.contains_key(gv) && a.pmfx.views@.contains_key(view_name) ==> {
                let vi = a.pmfx.views@[view_name];
                let v = b.views@[gv];
                &&& b.views@.contains_key(gv)
                &&& v.graph_view_name@ == gv
                &&& v.pmfx_view_name@ == view_name
                &&& v.camera@ == vi.camera@
                &&& v.hash == vi.hash
                &&& v.render_targets@ == vi.render_target@
                &&& v.view_pipeline@ == if info.pipelines@.len() == 1 { info.pipelines@[0]@ } else { Seq::empty() }
                &&& forall|j: int| 0 <= j < vi.render_target@.len() ==> #[trigger] b.textures@.contains_key(vi.render_target@[j]@)
                &&& forall|j: int| 0 <= j < vi.depth_stencil@.len() ==> #[trigger] b.textures@.contains_key(vi.depth_stencil@[j]@)
                &&& v.size == b.view_size(vi)
                &&& (v.depth_stencil matches Some(d) ==> vi.depth_stencil@.len() > 0 && d@ == vi.depth_stencil@[0]@)
                &&& (v.depth_stencil is None ==> vi.depth_stencil@.len() == 0)
                &&& b.commands@.len() > 0 && (b.commands@.last() matches DeviceCommand::CreateView { name } && name@ == gv)
                &&& forall|j: int| 0 <= j < targets_of(vi).len() ==> b.view_texture_refs@.contains_key(#[trigger] targets_of(vi)[j])
                    && names_of(b.view_texture_refs@[targets_of(vi)[j]]@).contains(gv)
            })
    }

    /// Builds the view of graph node `graph_view_name` from declared view `view_name`,
    /// unless it is already built: creates its textures, records which textures it renders
    /// to, and queues its creation for the device. Fails when a target cannot be created,
    /// is not declared, or the targets differ in sample count or size. The view takes the
    /// size of its first target.
    pub fn create_view(&mut self, view_name: &str, graph_view_name: &str, info: &GraphViewInfo) -> (r: Result<(), PmfxError>)
        requires
            old(self).wf(),
        ensures
            final(self).wf(),
            Self::view_creation(*old(self), *final(self), view_name@, graph_view_name@, *info, r),
            Self::queued_new(*old(self), *final(self)),
            Self::built_within(*old(self), *final(self)),
    {
        proof {
            Self::lemma_queued_refl(*self);
        }
        let vname = view_name.to_owned();
        let gname = graph_view_name.to_owned();
        if self.views.contains_key(&gname) {
            return Ok(());
        }
        let vi = match self.pmfx.views.get(&vname) {
            None => return Ok(()),
            Some(v) => v.duplicate(),
        };
        let ghost s0 = *self;
        proof {
            assert(vi.same_as(s0.pmfx.views@[view_name@]));
        }
        let mut targets = clone_names(&vi.render_target);
        let mut ds = clone_names(&vi.depth_stencil);
        targets.append(&mut ds);
        let ghost ts = names_of(targets@);
        proof {
            assert(ts =~= targets_of(s0.pmfx.views@[view_name@]));
        }
        // create the targets and record that this view renders to them
        let mut i: usize = 0;
        while i < targets.len()
            invariant
                self.wf(),
                s0 == *old(self),
                vname@ == view_name@,
                gname@ == graph_view_name@,
                !s0.views@.contains_key(graph_view_name@),
                s0.pmfx.views@.contains_key(view_name@),
                vi.same_as(s0.pmfx.views@[view_name@]),
                ts == names_of(targets@),
                ts == targets_of(s0.pmfx.views@[view_name@]),
                i <= targets@.len(),
                self.pmfx == s0.pmfx,
                self.sources == s0.sources,
                self.window_sizes == s0.window_sizes,
                self.views == s0.views,
                Self::keeps_built(s0, *self),
                self.shaders == s0.shaders,
                self.render_pipelines == s0.render_pipelines,
                self.formats == s0.formats,
                Self::queued_new(s0, *self),
                Self::built_within(s0, *self),
                forall|k: Seq<char>| #[trigger] s0.textures@.contains_key(k) ==> self.textures@.contains_key(k)
                    && self.textures@[k] == s0.textures@[k],
                forall|k: Seq<char>| #[trigger] self.textures@.contains_key(k) ==> Self::target_ok(s0, k),
                forall|j: int| 0 <= j < i ==> (Self::target_ok(s0, #[trigger] ts[j]) ==> self.textures@.contains_key(ts[j])),
                forall|j: int| 0 <= j < i ==> (s0.pmfx.textures@.contains_key(#[trigger] ts[j]) ==> Self::target_ok(s0, ts[j])),
                forall|j: int| 0 <= j < i ==> self.view_texture_refs@.contains_key(#[trigger] ts[j])
                    && names_of(self.view_texture_refs@[ts[j]]@).contains(graph_view_name@),
            decreases targets@.len() - i,
        {
            let name = &targets[i];
            proof {
                assert(ts[i as int] == name@);
            }
            let ghost pre = *self;
            let c = self.create_texture(name.as_str());
            if c.is_err() {
                proof {
                    assert(!Self::target_ok(s0, ts[i as int]));
                    assert(!Self::targets_buildable(s0, s0.pmfx.views@[view_name@]));
                }
                return c;
            }
            let ghost mid = *self;
            self.add_texture_ref(name, &gname);
            proof {
                Self::lemma_queued_trans(s0, pre, mid);
                Self::lemma_within_trans(s0, pre, mid);
                Self::lemma_same_built(mid, *self);
                Self::lemma_queued_trans(s0, mid, *self);
                Self::lemma_within_trans(s0, mid, *self);
                assert forall|j: int| 0 <= j < i + 1 implies self.view_texture_refs@.contains_key(#[trigger] ts[j])
                    && names_of(self.view_texture_refs@[ts[j]]@).contains(graph_view_name@) by {
                    assert(mid.view_texture_refs == pre.view_texture_refs);
                    if j < i && ts[j] != name@ {
                        assert(mid.view_texture_refs@.contains_key(ts[j]));
                    }
                    if j < i && ts[j] == name@ {
                        assert(names_of(mid.view_texture_refs@[ts[j]]@).contains(graph_view_name@));
                    }
                }
            }
            i += 1;
        }
        // every target must be built and agree with the first in sample count and size
        let mut i: usize = 0;
        while i < targets.len()
            invariant
                self.wf(),
                s0 == *old(self),
                !s0.views@.contains_key(graph_view_name@),
                s0.pmfx.views@.contains_key(view_name@),
                vi.same_as(s0.pmfx.views@[view_name@]),
                ts == names_of(targets@),
                ts == targets_of(s0.pmfx.views@[view_name@]),
                i <= targets@.len(),
                self.pmfx == s0.pmfx,
                self.sources == s0.sources,
                self.window_sizes == s0.window_sizes,
                self.views == s0.views,
                Self::keeps_built(s0, *self),
                self.shaders == s0.shaders,
                self.render_pipelines == s0.render_pipelines,
                self.formats == s0.formats,
                Self::queued_new(s0, *self),
                Self::built_within(s0, *self),
                forall|k: Seq<char>| #[trigger] s0.textures@.contains_key(k) ==> self.textures@.contains_key(k)
                    && self.textures@[k] == s0.textures@[k],
                forall|k: Seq<char>| #[trigger] self.textures@.contains_key(k) ==> Self::target_ok(s0, k),
                forall|j: int| 0 <= j < ts.len() ==> (Self::target_ok(s0, #[trigger] ts[j]) ==> self.textures@.contains_key(ts[j])),
                forall|j: int| 0 <= j < ts.len() ==> (s0.pmfx.textures@.contains_key(#[trigger] ts[j]) ==> Self::target_ok(s0, ts[j])),
                forall|j: int| 0 <= j < ts.len() ==> self.view_texture_refs@.contains_key(#[trigger] ts[j])
                    && names_of(self.view_texture_refs@[ts[j]]@).contains(graph_view_name@),
                forall|j: int| 0 <= j < i ==> self.textures@.contains_key(#[trigger] ts[j])
                    && self.textures@[ts[j]].samples == self.textures@[ts[0]].samples
                    && self.textures@[ts[j]].size == self.textures@[ts[0]].size,
            decreases targets@.len() - i,
        {
            proof {
                assert(ts[i as int] == targets@[i as int]@);
            }
            match self.textures.get(&targets[i]) {
                None => {
                    proof {
                        assert(!Self::target_ok(s0, ts[i as int]));
                    }
                    return Err(PmfxError::NotFound { kind: Missing::Texture, name: targets[i].clone() });
                },
                Some(t) => {
                    let first = self.textures.get(&targets[0]).unwrap();
                    if t.samples != first.samples {
                        proof {
                            assert(!Self::targets_agree(*self, s0.pmfx.views@[view_name@]));
                        }
                        return Err(PmfxError::SampleCountMismatch { view: vname });
                    }
                    if t.size.0 != first.size.0 || t.size.1 != first.size.1 {
                        proof {
                            assert(!Self::targets_agree(*self, s0.pmfx.views@[view_name@]));
                        }
                        return Err(PmfxError::SizeMismatch { view: vname });
                    }
                },
            }
            i += 1;
        }
        proof {
            assert(Self::targets_buildable(s0, s0.pmfx.views@[view_name@]));
            assert forall|j: int| 0 <= j < vi.render_target@.len() implies #[trigger] self.textures@.contains_key(vi.render_target@[j]@) by {
                assert(ts[j] == vi.render_target@[j]@);
            }
            assert forall|j: int| 0 <= j < vi.depth_stencil@.len() implies #[trigger] self.textures@.contains_key(vi.depth_stencil@[j]@) by {
                assert(ts[vi.render_target@.len() + j] == vi.depth_stencil@[j]@);
            }
        }
        // the view's size, sample count and attachment formats come from its targets
        let mut size: (u64, u64) = (0, 0);
        let mut samples: u32 = 1;
        if targets.len() > 0 {
            let first = self.textures.get(&targets[0]).unwrap();
            size = first.size;
            samples = first.samples;
        }
        let mut colour_formats: Vec<String> = Vec::new();
        let mut i: usize = 0;
        while i < vi.render_target.len()
            invariant
                self.wf(),
                i <= vi.render_target@.len(),
                forall|j: int| 0 <= j < vi.render_target@.len() ==> #[trigger] self.textures@.contains_key(vi.render_target@[j]@),
            decreases vi.render_target@.len() - i,
        {
            colour_formats.push(self.textures.get(&vi.render_target[i]).unwrap().format.clone());
            i += 1;
        }
        let depth_format = if vi.depth_stencil.len() > 0 {
            assert(self.textures@.contains_key(vi.depth_stencil@[0]@));
            Some(self.textures.get(&vi.depth_stencil[0]).unwrap().format.clone())
        } else {
            None
        };
        assert(size == self.view_size(s0.pmfx.views@[view_name@]));
        let ghost before_format = *self;
        let format = self.intern_format(PassFormat {
            samples,
            colour_formats,
            depth_format,
        });
        let view_pipeline = if info.pipelines.len() == 1 {
            info.pipelines[0].clone()
        } else {
            String::new()
        };
        let depth_stencil = if vi.depth_stencil.len() > 0 {
            Some(vi.depth_stencil[0].clone())
        } else {
            None
        };
        let view = views::View {
            graph_view_name: gname.clone(),
            pmfx_view_name: vname,
            render_targets: clone_names(&vi.render_target),
            depth_stencil,
            size,
            format,
            camera: vi.camera.clone(),
            view_pipeline,
            hash: vi.hash,
        };
        let ghost after_format = *self;
        proof {
            Self::lemma_same_built(before_format, after_format);
            Self::lemma_queued_trans(s0, before_format, after_format);
            Self::lemma_within_trans(s0, before_format, after_format);
        }
        self.views.insert(gname.clone(), view);
        self.commands.push(DeviceCommand::CreateView { name: gname });
        proof {
            let n = after_format.commands@.len();
            assert(self.commands@.take(n as int) =~= after_format.commands@);
            assert(Self::creates_new(s0, self.commands@[n as int]));
            assert(Self::queued_new(s0, *self)) by {
                assert forall|x: int| 0 <= x < s0.commands@.len() implies self.commands@[x] == s0.commands@[x] by {
                    assert(after_format.commands@.take(s0.commands@.len() as int)[x] == s0.commands@[x]);
                }
                assert(self.commands@.take(s0.commands@.len() as int) =~= s0.commands@);
                assert forall|x: int| s0.commands@.len() <= x < self.commands@.len() implies Self::creates_new(s0, #[trigger] self.commands@[x]) by {
                    if x < n {
                        assert(self.commands@[x] == after_format.commands@[x]);
                    }
                }
            }
            assert(Self::built_within(s0, *self)) by {
                assert forall|f: int, nn: Seq<char>, m: u32| #[trigger] Self::has_permutation(s0, f, nn, m) implies Self::has_permutation(*self, f, nn, m) by {
                    assert(Self::has_permutation(after_format, f, nn, m));
                    let i = choose|i: int| 0 <= i < after_format.render_pipelines@[f]@[nn]@.len() && #[trigger] after_format.render_pipelines@[f]@[nn]@[i].0 == m;
                    assert(self.render_pipelines@[f]@[nn]@[i].0 == m);
                }
            }
            assert(self.views@[graph_view_name@] == view);
            assert forall|f: int, n: Seq<char>|
                0 <= f < self.render_pipelines@.len() && #[trigger] self.render_pipelines@[f]@.contains_key(n) implies f
                    < s0.render_pipelines@.len() && s0.render_pipelines@[f]@.contains_key(n) by {
                if f >= s0.render_pipelines@.len() {
                    assert(self.render_pipelines@[f]@.is_empty());
                }
            }
        }
        Ok(())
    }

    /// Queues a shader for building unless it is built already. Fails when the shader is
    /// not declared.
    fn create_shader(&mut self, folder: &String, file: &Option<String>) -> (r: Result<(), PmfxError>)
        requires
            old(self).wf(),
        ensures
            final(self).wf(),
            old(self).commands@.len() <= final(self).commands@.len(),
            final(self).commands@.take(old(self).commands@.len() as int) == old(self).commands@,
            forall|x: int| old(self).commands@.len() <= x < final(self).commands@.len() ==> (#[trigger] final(self).commands@[x]) is CreateShader,
            final(self).compute_pipelines == old(self).compute_pipelines,
            final(self).compiled == old(self).compiled,
            final(self).active_render_graph == old(self).active_render_graph,
            Self::queued_new(*old(self), *final(self)),
            Self::built_within(*old(self), *final(self)),
            forall|k: Seq<char>| #[trigger] final(self).shaders@.contains_key(k) ==> old(self).shaders@.contains_key(k)
                || old(self).pmfx.shaders@.contains_key(k),
            forall|k: Seq<char>| #[trigger] final(self).shaders@.contains_key(k) && !old(self).shaders@.contains_key(k)
                ==> final(self).shaders@[k] == old(self).pmfx.shaders@[k],
            r is Ok <==> (file matches Some(f) ==> (old(self).shaders@.contains_key(f@) || old(self).pmfx.shaders@.contains_key(f@))),
            r is Ok ==> (file matches Some(f) ==> final(self).shaders@.contains_key(f@)),
            forall|k: Seq<char>| #[trigger] old(self).shaders@.contains_key(k) ==> final(self).shaders@.contains_key(k)
                && final(self).shaders@[k] == old(self).shaders@[k],
            final(self).pmfx == old(self).pmfx,
            final(self).sources == old(self).sources,
            final(self).views == old(self).views,
            final(self).textures == old(self).textures,
            final(self).formats == old(self).formats,
            final(self).render_pipelines == old(self).render_pipelines,
            final(self).compute_pipelines == old(self).compute_pipelines,
            final(self).window_sizes == old(self).window_sizes,
            final(self).view_texture_refs == old(self).view_texture_refs,
    {
        assert(self.commands@.take(old(self).commands@.len() as int) =~= old(self).commands@);
        proof {
            Self::lemma_queued_refl(*self);
        }
        if let Some(f) = file {
            if !self.shaders.contains_key(f) {
                match self.pmfx.shaders.get(f) {
                    None => {
                        return Err(PmfxError::NotFound { kind: Missing::Shader, name: f.clone() });
                    },
                    Some(hash) => {
                        let hash = *hash;
                        self.commands.push(DeviceCommand::CreateShader { file: f.clone(), folder: folder.clone() });
                        self.shaders.insert(f.clone(), hash);
                        assert(self.commands@.take(old(self).commands@.len() as int) =~= old(self).commands@);
                        assert(Self::creates_new(*old(self), self.commands@[old(self).commands@.len() as int]));
                        assert(Self::built_within(*old(self), *self)) by {
                            assert forall|f: int, n: Seq<char>, m: u32| #[trigger] Self::has_permutation(*old(self), f, n, m)
                                implies Self::has_permutation(*self, f, n, m) by {
                                let i = choose|i: int| 0 <= i < old(self).render_pipelines@[f]@[n]@.len()
                                    && #[trigger] old(self).render_pipelines@[f]@[n]@[i].0 == m;
                                assert(self.render_pipelines@[f]@[n]@[i].0 == m);
                            }
                        }
                    },
                }
            }
        }
        Ok(())
    }

    /// Builds every permutation of pipeline `pipeline_name` for pass format `format`
    /// unless it is built for that format already, building its shaders first.
    /// Permutations with a compute shader become compute pipelines. Fails when the
    /// pipeline or one of its shaders is not declared.
    pub fn create_pipeline(&mut self, pipeline_name: &str, format: usize) -> (r: Result<(), PmfxError>)
        requires
            old(self).wf(),
            format < old(self).formats@.len(),
        ensures
            final(self).wf(),
            Self::pipeline_creation(*old(self), *final(self), pipeline_name@, format as int, r),
            Self::queued_new(*old(self), *final(self)),
            Self::built_within(*old(self), *final(self)),
    {
        proof {
            Self::lemma_queued_refl(*self);
        }
        let name = pipeline_name.to_owned();
        let perms = match self.pmfx.pipelines.get(&name) {
            None => return Err(PmfxError::NotFound { kind: Missing::Pipeline, name }),
            Some(p) => p,
        };
        if self.render_pipelines[format].contains_key(&name) {
            return Ok(());
        }
        let n = perms.len();
        let folder = match self.pmfx_folders.get(&name) {
            Some(f) => f.clone(),
            None => String::new(),
        };
        let ghost s0 = *self;
        let ghost decl = s0.pmfx.pipelines@[name@]@;
        let mut i: usize = 0;
        while i < n
            invariant
                self.wf(),
                s0.pmfx.pipelines@.contains_key(name@),
                decl == s0.pmfx.pipelines@[name@]@,
                n == decl.len(),
                i <= n,
                format < self.formats@.len(),
                self.pmfx == s0.pmfx,
                self.sources == s0.sources,
                self.views == s0.views,
                self.textures == s0.textures,
                self.formats == s0.formats,
                self.render_pipelines == s0.render_pipelines,
                self.compute_pipelines == s0.compute_pipelines,
                self.window_sizes == s0.window_sizes,
                self.view_texture_refs == s0.view_texture_refs,
                !s0.render_pipelines@[format as int]@.contains_key(name@),
                s0 == *old(self),
                name@ == pipeline_name@,
                forall|k: Seq<char>| #[trigger] s0.shaders@.contains_key(k) ==> self.shaders@.contains_key(k) && self.shaders@[k] == s0.shaders@[k],
                forall|k: Seq<char>| #[trigger] self.shaders@.contains_key(k) ==> s0.shaders@.contains_key(k) || s0.pmfx.shaders@.contains_key(k),
                forall|k: Seq<char>| #[trigger] self.shaders@.contains_key(k) && !s0.shaders@.contains_key(k) ==> self.shaders@[k] == s0.pmfx.shaders@[k],
                s0.commands@.len() <= self.commands@.len(),
                self.commands@.take(s0.commands@.len() as int) == s0.commands@,
                Self::queued_new(s0, *self),
                Self::built_within(s0, *self),
                forall|j: int| 0 <= j < i ==> {
                    &&& Self::shader_available(s0, (#[trigger] decl[j]).1.vs)
                    &&& Self::shader_available(s0, decl[j].1.ps)
                    &&& Self::shader_available(s0, decl[j].1.cs)
                },
            decreases n - i,
        {
            let perms = self.pmfx.pipelines.get(&name).unwrap();
            let p = &perms[i].1;
            let vs = match &p.vs { Some(f) => Some(f.clone()), None => None };
            let ps = match &p.ps { Some(f) => Some(f.clone()), None => None };
            let cs = match &p.cs { Some(f) => Some(f.clone()), None => None };
            let ghost pre = *self;
            let c = self.create_shader(&folder, &vs);
            proof {
                Self::lemma_shader_step(s0, pre, *self);
            }
            if c.is_err() {
                proof {
                    assert(!Self::shader_available(s0, decl[i as int].1.vs));
                }
                return c;
            }
            let ghost pre = *self;
            let c = self.create_shader(&folder, &ps);
            proof {
                Self::lemma_shader_step(s0, pre, *self);
            }
            if c.is_err() {
                proof {
                    assert(!Self::shader_available(s0, decl[i as int].1.ps));
                }
                return c;
            }
            let ghost pre = *self;
            let c = self.create_shader(&folder, &cs);
            proof {
                Self::lemma_shader_step(s0, pre, *self);
            }
            if c.is_err() {
                proof {
                    assert(!Self::shader_available(s0, decl[i as int].1.cs));
                }
                return c;
            }
            i += 1;
        }
        let mut built: Vec<(u32, PmfxHash)> = Vec::new();
        let mut i: usize = 0;
        while i < n
            invariant
                self.wf(),
                s0.pmfx.pipelines@.contains_key(name@),
                decl == s0.pmfx.pipelines@[name@]@,
                n == decl.len(),
                i <= n,
                format < self.formats@.len(),
                self.pmfx == s0.pmfx,
                self.sources == s0.sources,
                self.formats == s0.formats,
                self.render_pipelines == s0.render_pipelines,
                self.views == s0.views,
                self.textures == s0.textures,
                self.window_sizes == s0.window_sizes,
                self.view_texture_refs == s0.view_texture_refs,
                forall|k: Seq<char>| #[trigger] s0.shaders@.contains_key(k) ==> self.shaders@.contains_key(k) && self.shaders@[k] == s0.shaders@[k],
                forall|k: Seq<char>| #[trigger] self.shaders@.contains_key(k) ==> s0.shaders@.contains_key(k) || s0.pmfx.shaders@.contains_key(k),
                forall|k: Seq<char>| #[trigger] self.shaders@.contains_key(k) && !s0.shaders@.contains_key(k) ==> self.shaders@[k] == s0.pmfx.shaders@[k],
                Self::shaders_available(s0, decl),
                !s0.render_pipelines@[format as int]@.contains_key(name@),
                s0 == *old(self),
                name@ == pipeline_name@,
                built@ == render_permutations(decl.take(i as int)),
                s0.commands@.len() <= self.commands@.len(),
                self.commands@.take(s0.commands@.len() as int) == s0.commands@,
                Self::queued_new(s0, *self),
                Self::built_within(s0, *self),
                forall|j: int| 0 <= j < i ==> ((#[trigger] decl[j]).1.cs is None ==> Self::queued_render(
                    self.commands@, s0.commands@.len() as int, format, name@, decl[j].0,
                    resolved_state(decl[j].1.raster_state, s0.pmfx.raster_states@),
                    resolved_state(decl[j].1.depth_stencil_state, s0.pmfx.depth_stencil_states@),
                    resolved_topology(decl[j].1.topology))),
                forall|j: int| 0 <= j < i ==> ((#[trigger] decl[j]).1.cs is Some ==> self.compute_pipelines@.contains_key(name@)),
            decreases n - i,
        {
            let perms = self.pmfx.pipelines.get(&name).unwrap();
            let mask = perms[i].0;
            let p = &perms[i].1;
            proof {
                assert(decl.take(i + 1) =~= decl.take(i as int).push(decl[i as int]));
                reveal(Seq::filter);
                assert(decl.take(i as int).push(decl[i as int]).drop_last() =~= decl.take(i as int));
            }
            let ghost cmds0 = self.commands@;
            let ghost st0 = *self;
            proof {
                assert(perms@[i as int] == decl[i as int]);
            }
            if p.cs.is_some() {
                self.compute_pipelines.insert(name.clone(), p.hash);
                self.commands.push(DeviceCommand::CreateComputePipeline { name: name.clone(), permutation: mask });
                assert(render_permutations(decl.take(i + 1)) =~= render_permutations(decl.take(i as int)));
            } else {
                built.push((mask, p.hash));
                let raster_state = resolve_state(&p.raster_state, &self.pmfx.raster_states);
                let depth_stencil_state = resolve_state(&p.depth_stencil_state, &self.pmfx.depth_stencil_states);
                let topology = resolve_topology(&p.topology);
                self.commands.push(DeviceCommand::CreateRenderPipeline {
                    format,
                    name: name.clone(),
                    permutation: mask,
                    raster_state,
                    depth_stencil_state,
                    topology,
                });
                assert(Self::queued_render(self.commands@, s0.commands@.len() as int, format, name@, decl[i as int].0,
                    resolved_state(decl[i as int].1.raster_state, s0.pmfx.raster_states@),
                    resolved_state(decl[i as int].1.depth_stencil_state, s0.pmfx.depth_stencil_states@),
                    resolved_topology(decl[i as int].1.topology))) by {
                    assert(self.commands@[cmds0.len() as int] == DeviceCommand::CreateRenderPipeline {
                        format,
                        name: name,
                        permutation: mask,
                        raster_state,
                        depth_stencil_state,
                        topology,
                    });
                }
                assert(render_permutations(decl.take(i + 1)) =~= render_permutations(decl.take(i as int)).push((mask, p.hash)));
            }
            proof {
                assert(self.commands@.take(s0.commands@.len() as int) =~= s0.commands@);
                assert forall|x: int| s0.commands@.len() <= x < self.commands@.len() implies Self::creates_new(s0, #[trigger] self.commands@[x]) by {
                    if x < cmds0.len() {
                        assert(self.commands@[x] == cmds0[x]);
                    } else {
                        assert(!Self::has_permutation(s0, format as int, name@, mask));
                    }
                }
                assert(Self::built_within(s0, *self)) by {
                    assert forall|f: int, nn: Seq<char>, m: u32| #[trigger] Self::has_permutation(s0, f, nn, m) implies Self::has_permutation(*self, f, nn, m) by {
                        let ii = choose|ii: int| 0 <= ii < s0.render_pipelines@[f]@[nn]@.len() && #[trigger] s0.render_pipelines@[f]@[nn]@[ii].0 == m;
                        assert(self.render_pipelines@[f]@[nn]@[ii].0 == m);
                    }
                }
                assert forall|j: int| 0 <= j < i + 1 && (#[trigger] decl[j]).1.cs is None implies Self::queued_render(
                    self.commands@, s0.commands@.len() as int, format, name@, decl[j].0,
                    resolved_state(decl[j].1.raster_state, s0.pmfx.raster_states@),
                    resolved_state(decl[j].1.depth_stencil_state, s0.pmfx.depth_stencil_states@),
                    resolved_topology(decl[j].1.topology)) by {
                    if j < i {
                        let idx = choose|idx: int| s0.commands@.len() <= idx < cmds0.len() && (#[trigger] cmds0[idx] matches DeviceCommand::CreateRenderPipeline {
                            format: f, name: n, permutation: m, raster_state: rs, depth_stencil_state: ds, topology: t }
                            && f == format && n@ == name@ && m == decl[j].0
                            && opt_view(rs) == resolved_state(decl[j].1.raster_state, s0.pmfx.raster_states@)
                            && opt_view(ds) == resolved_state(decl[j].1.depth_stencil_state, s0.pmfx.depth_stencil_states@)
                            && t@ == resolved_topology(decl[j].1.topology));
                        assert(self.commands@[idx] == cmds0[idx]);
                    }
                }
            }
            i += 1;
        }
        assert(decl.take(n as int) =~= decl);
        let mut table = self.render_pipelines.remove(format);
        let ghost t0 = table@;
        table.insert(name, built);
        self.render_pipelines.insert(format, table);
        proof {
            assert(table@ == t0.insert(pipeline_name@, built));
            assert(Self::built_within(s0, *self)) by {
                assert forall|f: int, nn: Seq<char>, m: u32| #[trigger] Self::has_permutation(s0, f, nn, m) implies Self::has_permutation(*self, f, nn, m) by {
                    let ii = choose|ii: int| 0 <= ii < s0.render_pipelines@[f]@[nn]@.len() && #[trigger] s0.render_pipelines@[f]@[nn]@[ii].0 == m;
                    if f != format {
                        assert(self.render_pipelines@[f] == s0.render_pipelines@[f]);
                    } else {
                        assert(nn != pipeline_name@);
                        assert(self.render_pipelines@[f]@[nn] == s0.render_pipelines@[f]@[nn]);
                    }
                    assert(self.render_pipelines@[f]@[nn]@[ii].0 == m);
                }
            }
            assert forall|f: int, n: Seq<char>|
                0 <= f < self.render_pipelines@.len() && #[trigger] self.render_pipelines@[f]@.contains_key(n) && !(f
                    < s0.render_pipelines@.len() && s0.render_pipelines@[f]@.contains_key(n)) implies self.render_pipelines@[f]@[n]@
                    == render_permutations(s0.pmfx.pipelines@[n]@) by {
                if f != format {
                    assert(self.render_pipelines@[f] == s0.render_pipelines@[f]);
                }
            }
            assert forall|f: int, n: Seq<char>|
                0 <= f < self.render_pipelines@.len() && #[trigger] self.render_pipelines@[f]@.contains_key(n) implies (f
                    < s0.render_pipelines@.len() && s0.render_pipelines@[f]@.contains_key(n)) || (s0.pmfx.pipelines@.contains_key(n)
                    && Self::shaders_available(s0, s0.pmfx.pipelines@[n]@)) by {
                if f != format {
                    assert(self.render_pipelines@[f] == s0.render_pipelines@[f]);
                }
            }
            assert(self.render_pipelines@ =~= s0.render_pipelines@.update(format as int, table));
            assert forall|j: int| 0 <= j < self.render_pipelines@.len() implies #[trigger] self.render_pipelines@[j].wf() by {
                if j != format {
                    assert(self.render_pipelines@[j] == s0.render_pipelines@[j]);
                }
            }
        }
        Ok(())
    }

    /// Built shaders and render pipelines of `a` are still there, unchanged, in `b`.
    pub open spec fn keeps_built(a: Self, b: Self) -> bool {
        &&& forall|k: Seq<char>| #[trigger] a.shaders@.contains_key(k) ==> b.shaders@.contains_key(k) && b.shaders@[k] == a.shaders@[k]
        &&& a.formats@.len() <= b.formats@.len()
        &&& forall|j: int, k: Seq<char>| 0 <= j < a.formats@.len() && #[trigger] a.render_pipelines@[j]@.contains_key(k)
            ==> b.render_pipelines@[j]@.contains_key(k) && b.render_pipelines@[j]@[k] == a.render_pipelines@[j]@[k]
    }



    /// Render pipeline `n` is built in `a` for pass format `f` with a permutation of mask
    /// `mask`.
    pub open spec fn has_permutation(a: Self, f: int, n: Seq<char>, mask: u32) -> bool {
        &&& 0 <= f < a.render_pipelines@.len()
        &&& a.render_pipelines@[f]@.contains_key(n)
        &&& exists|i: int| 0 <= i < a.render_pipelines@[f]@[n]@.len() && #[trigger] a.render_pipelines@[f]@[n]@[i].0 == mask
    }

    /// Command `c` asks for a device object that `a` has not built.
    pub open spec fn creates_new(a: Self, c: DeviceCommand) -> bool {
        match c {
            DeviceCommand::CreateTexture { name, .. } => !a.textures@.contains_key(name@),
            DeviceCommand::CreateView { name } => !a.views@.contains_key(name@),
            DeviceCommand::CreateShader { file, .. } => !a.shaders@.contains_key(file@),
            DeviceCommand::CreateRenderPipeline { format, name, permutation, .. } => !Self::has_permutation(
                a,
                format as int,
                name@,
                permutation,
            ),
            DeviceCommand::CreateComputePipeline { .. } => true,
            DeviceCommand::BuildBarriers => true,
            _ => false,
        }
    }

    /// `b`'s command queue extends `a`'s only with requests for objects `a` has not built.
    pub open spec fn queued_new(a: Self, b: Self) -> bool {
        &&& a.commands@.len() <= b.commands@.len()
        &&& b.commands@.take(a.commands@.len() as int) == a.commands@
        &&& forall|i: int| a.commands@.len() <= i < b.commands@.len() ==> Self::creates_new(a, #[trigger] b.commands@[i])
    }

    /// Everything built in `a` is still built in `b`.
    pub open spec fn built_within(a: Self, b: Self) -> bool {
        &&& forall|k: Seq<char>| #[trigger] a.textures@.contains_key(k) ==> b.textures@.contains_key(k)
        &&& forall|k: Seq<char>| #[trigger] a.views@.contains_key(k) ==> b.views@.contains_key(k)
        &&& forall|k: Seq<char>| #[trigger] a.shaders@.contains_key(k) ==> b.shaders@.contains_key(k)
        &&& forall|f: int, n: Seq<char>, m: u32| #[trigger] Self::has_permutation(a, f, n, m) ==> Self::has_permutation(b, f, n, m)
    }

    pub proof fn lemma_queued_refl(a: Self)
        ensures
            Self::queued_new(a, a),
            Self::built_within(a, a),
    {
        assert(a.commands@.take(a.commands@.len() as int) =~= a.commands@);
    }

    pub proof fn lemma_queued_trans(a: Self, b: Self, c: Self)
        requires
            Self::queued_new(a, b),
            Self::queued_new(b, c),
            Self::built_within(a, b),
        ensures
            Self::queued_new(a, c),
    {
        assert forall|x: int| 0 <= x < a.commands@.len() implies c.commands@[x] == a.commands@[x] by {
            assert(c.commands@.take(b.commands@.len() as int)[x] == b.commands@[x]);
            assert(b.commands@.take(a.commands@.len() as int)[x] == a.commands@[x]);
        }
        assert(c.commands@.take(a.commands@.len() as int) =~= a.commands@);
        assert forall|i: int| a.commands@.len() <= i < c.commands@.len() implies Self::creates_new(a, #[trigger] c.commands@[i]) by {
            if i < b.commands@.len() {
                assert(c.commands@.take(b.commands@.len() as int)[i] == b.commands@[i]);
            } else {
                let cmd = c.commands@[i];
                assert(Self::creates_new(b, cmd));
                match cmd {
                    DeviceCommand::CreateRenderPipeline { format, name, permutation, .. } => {
                        if Self::has_permutation(a, format as int, name@, permutation) {
                            assert(Self::has_permutation(b, format as int, name@, permutation));
                        }
                    },
                    _ => {},
                }
            }
        }
    }

    /// Same queue and same built objects (up to new pass formats) give no new work.
    pub proof fn lemma_same_built(a: Self, b: Self)
        requires
            b.commands == a.commands,
            b.textures == a.textures,
            b.views == a.views,
            b.shaders == a.shaders,
            a.render_pipelines@.len() <= b.render_pipelines@.len(),
            forall|j: int| 0 <= j < a.render_pipelines@.len() ==> #[trigger] b.render_pipelines@[j] == a.render_pipelines@[j],
        ensures
            Self::queued_new(a, b),
            Self::built_within(a, b),
    {
        Self::lemma_queued_refl(a);
        assert forall|f: int, n: Seq<char>, m: u32| #[trigger] Self::has_permutation(a, f, n, m) implies Self::has_permutation(b, f, n, m) by {
            assert(b.render_pipelines@[f] == a.render_pipelines@[f]);
            let i = choose|i: int| 0 <= i < a.render_pipelines@[f]@[n]@.len() && #[trigger] a.render_pipelines@[f]@[n]@[i].0 == m;
            assert(b.render_pipelines@[f]@[n]@[i].0 == m);
        }
    }


    /// Creating one more shader keeps what a pipeline build has promised so far.
    proof fn lemma_shader_step(s0: Self, pre: Self, post: Self)
        requires
            Self::queued_new(s0, pre),
            Self::built_within(s0, pre),
            Self::queued_new(pre, post),
            Self::built_within(pre, post),
        ensures
            Self::queued_new(s0, post),
            Self::built_within(s0, post),
            post.commands@.take(s0.commands@.len() as int) == s0.commands@,
    {
        Self::lemma_queued_trans(s0, pre, post);
        Self::lemma_within_trans(s0, pre, post);
    }

    /// `built_within` composes.
    pub proof fn lemma_within_trans(a: Self, b: Self, c: Self)
        requires
            Self::built_within(a, b),
            Self::built_within(b, c),
        ensures
            Self::built_within(a, c),
    {
        assert forall|f: int, n: Seq<char>, m: u32| #[trigger] Self::has_permutation(a, f, n, m) implies Self::has_permutation(c, f, n, m) by {
            assert(Self::has_permutation(b, f, n, m));
        }
    }

    /// Keeping built objects keeps their permutations.
    pub proof fn lemma_keeps_within(a: Self, b: Self)
        requires
            a.wf(),
            b.wf(),
            Self::keeps_built(a, b),
            forall|k: Seq<char>| #[trigger] a.textures@.contains_key(k) ==> b.textures@.contains_key(k),
            forall|k: Seq<char>| #[trigger] a.views@.contains_key(k) ==> b.views@.contains_key(k),
        ensures
            Self::built_within(a, b),
    {
        assert forall|f: int, n: Seq<char>, m: u32| #[trigger] Self::has_permutation(a, f, n, m) implies Self::has_permutation(b, f, n, m) by {
            assert(a.render_pipelines@[f]@.contains_key(n));
            assert(b.render_pipelines@[f]@[n] == a.render_pipelines@[f]@[n]);
            let i = choose|i: int| 0 <= i < a.render_pipelines@[f]@[n]@.len() && #[trigger] a.render_pipelines@[f]@[n]@[i].0 == m;
            assert(b.render_pipelines@[f]@[n]@[i].0 == m);
        }
    }

    /// Shaders and render pipelines built in `b` but not in `a` were declared, with all
    /// their shaders available, in `a`.
    pub open spec fn grows_declared(a: Self, b: Self) -> bool {
        &&& forall|k: Seq<char>| #[trigger] b.shaders@.contains_key(k) ==> a.shaders@.contains_key(k) || a.pmfx.shaders@.contains_key(k)
        &&& forall|k: Seq<char>| #[trigger] b.shaders@.contains_key(k) && !a.shaders@.contains_key(k) ==> b.shaders@[k] == a.pmfx.shaders@[k]
        &&& forall|k: Seq<char>| #[trigger] b.views@.contains_key(k) && !a.views@.contains_key(k) ==> a.pmfx.views@.contains_key(
            b.views@[k].pmfx_view_name@) && b.views@[k].hash == a.pmfx.views@[b.views@[k].pmfx_view_name@].hash
        &&& forall|f: int, n: Seq<char>|
            0 <= f < b.render_pipelines@.len() && #[trigger] b.render_pipelines@[f]@.contains_key(n) ==> (f
                < a.render_pipelines@.len() && a.render_pipelines@[f]@.contains_key(n)) || (a.pmfx.pipelines@.contains_key(n)
                && Self::shaders_available(a, a.pmfx.pipelines@[n]@))
        &&& forall|f: int, n: Seq<char>|
            0 <= f < b.render_pipelines@.len() && #[trigger] b.render_pipelines@[f]@.contains_key(n) && !(f
                < a.render_pipelines@.len() && a.render_pipelines@[f]@.contains_key(n)) ==> b.render_pipelines@[f]@[n]@
                == render_permutations(a.pmfx.pipelines@[n]@)
    }

    /// Availability of shaders is the same in two states with the same declarations whose
    /// built shaders differ only by declared ones.
    pub proof fn lemma_available(a: Self, b: Self, perms: Seq<(u32, Pipeline)>)
        requires
            a.pmfx == b.pmfx,
            forall|k: Seq<char>| #[trigger] a.shaders@.contains_key(k) ==> b.shaders@.contains_key(k),
            forall|k: Seq<char>| #[trigger] b.shaders@.contains_key(k) ==> a.shaders@.contains_key(k) || a.pmfx.shaders@.contains_key(k),
        ensures
            Self::shaders_available(a, perms) == Self::shaders_available(b, perms),
    {
        assert forall|f: Option<String>| Self::shader_available(a, f) == Self::shader_available(b, f) by {
            if let Some(x) = f {
                if b.shaders@.contains_key(x@) {
                    assert(a.shaders@.contains_key(x@) || a.pmfx.shaders@.contains_key(x@));
                }
            }
        }
    }

    /// Growth of built shaders and pipelines composes.
    pub proof fn lemma_grows_trans(a: Self, b: Self, c: Self)
        requires
            Self::grows_declared(a, b),
            Self::grows_declared(b, c),
            Self::keeps_built(a, b),
            Self::keeps_built(b, c),
            b.wf(),
            a.pmfx == b.pmfx,
            forall|k: Seq<char>| #[trigger] b.views@.contains_key(k) ==> c.views@.contains_key(k) && c.views@[k] == b.views@[k],
            forall|k: Seq<char>| #[trigger] a.views@.contains_key(k) ==> b.views@.contains_key(k),
        ensures
            Self::grows_declared(a, c),
    {
        assert forall|f: int, n: Seq<char>|
            0 <= f < c.render_pipelines@.len() && #[trigger] c.render_pipelines@[f]@.contains_key(n) && !(f
                < a.render_pipelines@.len() && a.render_pipelines@[f]@.contains_key(n)) implies c.render_pipelines@[f]@[n]@
                == render_permutations(a.pmfx.pipelines@[n]@) by {
            if f < b.render_pipelines@.len() && b.render_pipelines@[f]@.contains_key(n) {
                assert(c.render_pipelines@[f]@[n] == b.render_pipelines@[f]@[n]);
            }
        }
        assert forall|k: Seq<char>| #[trigger] c.shaders@.contains_key(k) && !a.shaders@.contains_key(k) implies c.shaders@[k]
            == a.pmfx.shaders@[k] by {
            if b.shaders@.contains_key(k) {
                assert(c.shaders@[k] == b.shaders@[k]);
            }
        }
        assert forall|k: Seq<char>| #[trigger] c.views@.contains_key(k) && !a.views@.contains_key(k) implies a.pmfx.views@.contains_key(
            c.views@[k].pmfx_view_name@) && c.views@[k].hash == a.pmfx.views@[c.views@[k].pmfx_view_name@].hash by {
            if b.views@.contains_key(k) {
                assert(c.views@[k] == b.views@[k]);
            }
        }
        assert forall|f: int, n: Seq<char>|
            0 <= f < c.render_pipelines@.len() && #[trigger] c.render_pipelines@[f]@.contains_key(n) implies (f
                < a.render_pipelines@.len() && a.render_pipelines@[f]@.contains_key(n)) || (a.pmfx.pipelines@.contains_key(n)
                && Self::shaders_available(a, a.pmfx.pipelines@[n]@)) by {
            if !(f < b.render_pipelines@.len() && b.render_pipelines@[f]@.contains_key(n)) {
                Self::lemma_available(a, b, a.pmfx.pipelines@[n]@);
            }
        }
    }
    /// Shader `f`, if any, is built in `a` or declared.
    pub open spec fn shader_available(a: Self, f: Option<String>) -> bool {
        f matches Some(x) ==> a.shaders@.contains_key(x@) || a.pmfx.shaders@.contains_key(x@)
    }

    /// Every shader of the permutations `perms` is built in `a` or declared.
    pub open spec fn shaders_available(a: Self, perms: Seq<(u32, Pipeline)>) -> bool {
        forall|j: int| 0 <= j < perms.len() ==> {
            &&& Self::shader_available(a, (#[trigger] perms[j]).1.vs)
            &&& Self::shader_available(a, perms[j].1.ps)
            &&& Self::shader_available(a, perms[j].1.cs)
        }
    }


    /// Some command of `cmds` from position `from` on asks for render pipeline `name`,
    /// permutation `mask`, for pass format `format`.
    pub open spec fn queued_render(
        cmds: Seq<DeviceCommand>,
        from: int,
        format: usize,
        name: Seq<char>,
        mask: u32,
        raster: Option<Seq<char>>,
        depth: Option<Seq<char>>,
        topology: Seq<char>,
    ) -> bool {
        exists|idx: int|
            from <= idx < cmds.len() && (#[trigger] cmds[idx] matches DeviceCommand::CreateRenderPipeline {
                format: f, name: n, permutation: m, raster_state: rs, depth_stencil_state: ds, topology: t }
                && f == format && n@ == name && m == mask && opt_view(rs) == raster && opt_view(ds) == depth && t@ == topology)
    }

    /// The effect of `create_pipeline(name, format)` from `a` to `b`, returning `r`.
    pub open spec fn pipeline_creation(a: Self, b: Self, name: Seq<char>, format: int, r: Result<(), PmfxError>) -> bool {
        if !a.pmfx.pipelines@.contains_key(name) {
            r is Err && b == a
        } else if a.render_pipelines@[format]@.contains_key(name) {
            r is Ok && b == a
        } else {
            &&& b.pmfx == a.pmfx
            &&& b.sources == a.sources
            &&& b.views == a.views
            &&& b.formats == a.formats
            &&& b.textures == a.textures
            &&& (r is Ok <==> Self::shaders_available(a, a.pmfx.pipelines@[name]@))
            &&& Self::grows_declared(a, b)
            &&& b.window_sizes == a.window_sizes
            &&& b.view_texture_refs == a.view_texture_refs
            &&& forall|k: Seq<char>| #[trigger] a.shaders@.contains_key(k) ==> b.shaders@.contains_key(k) && b.shaders@[k] == a.shaders@[k]
            &&& forall|j: int, k: Seq<char>| 0 <= j < a.formats@.len() && #[trigger] a.render_pipelines@[j]@.contains_key(k) && (j != format || k != name)
                ==> b.render_pipelines@[j]@.contains_key(k) && b.render_pipelines@[j]@[k] == a.render_pipelines@[j]@[k]
            &&& a.commands@.len() <= b.commands@.len()
            &&& b.commands@.take(a.commands@.len() as int) == a.commands@
            &&& r is Ok ==> {
                &&& forall|j: int| 0 <= j < a.pmfx.pipelines@[name]@.len() ==> (
                    (#[trigger] a.pmfx.pipelines@[name]@[j]).1.cs is None ==> Self::queued_render(
                        b.commands@, a.commands@.len() as int, format as usize, name, a.pmfx.pipelines@[name]@[j].0,
                        resolved_state(a.pmfx.pipelines@[name]@[j].1.raster_state, a.pmfx.raster_states@),
                        resolved_state(a.pmfx.pipelines@[name]@[j].1.depth_stencil_state, a.pmfx.depth_stencil_states@),
                        resolved_topology(a.pmfx.pipelines@[name]@[j].1.topology)))
                &&& forall|j: int| 0 <= j < a.pmfx.pipelines@[name]@.len() ==> (
                    (#[trigger] a.pmfx.pipelines@[name]@[j]).1.cs is Some ==> b.compute_pipelines@.contains_key(name))
                &&& b.render_pipelines@[format]@.contains_key(name)
                &&& b.render_pipelines@[format]@[name]@ == render_permutations(a.pmfx.pipelines@[name]@)
                &&& forall|j: int| 0 <= j < a.formats@.len() && j != format ==> #[trigger] b.render_pipelines@[j] == a.render_pipelines@[j]
            }
        }
    }

    /// The build hash of permutation `permutation` of pipeline `pipeline_name` built for
    /// pass format `format`.
    pub fn get_render_pipeline_permutation_for_format(&self, pipeline_name: &str, permutation: u32, format: usize) -> (r: Result<PmfxHash, PmfxError>)
        requires
            self.wf(),
        ensures
            r matches Ok(h) ==> format < self.formats@.len() && self.render_pipelines@[format as int]@.contains_key(pipeline_name@)
                && self.render_pipelines@[format as int]@[pipeline_name@]@.contains((permutation, h)),
            r is Err ==> format >= self.formats@.len() || !self.render_pipelines@[format as int]@.contains_key(pipeline_name@)
                || forall|h: PmfxHash| !self.render_pipelines@[format as int]@[pipeline_name@]@.contains((permutation, h)),
    {
        let name = pipeline_name.to_owned();
        if format >= self.render_pipelines.len() {
            return Err(PmfxError::NotFound { kind: Missing::Pipeline, name });
        }
        match self.render_pipelines[format].get(&name) {
            None => Err(PmfxError::NotFound { kind: Missing::Pipeline, name }),
            Some(list) => {
                let mut i: usize = 0;
                while i < list.len()
                    invariant
                        i <= list@.len(),
                        forall|j: int| 0 <= j < i ==> (#[trigger] list@[j]).0 != permutation,
                        self.wf(),
                        format < self.formats@.len(),
                        name@ == pipeline_name@,
                        self.render_pipelines@[format as int]@.contains_key(name@),
                        *list == self.render_pipelines@[format as int]@[name@],
                    decreases list@.len() - i,
                {
                    if list[i].0 == permutation {
                        assert(list@[i as int] == (permutation, list[i as int].1));
                        assert(list@.contains(list@[i as int]));
                        return Ok(list[i].1);
                    }
                    i += 1;
                }
                proof {
                    assert forall|h: PmfxHash| !list@.contains((permutation, h)) by {
                        if list@.contains((permutation, h)) {
                            let j = choose|j: int| 0 <= j < list@.len() && list@[j] == (permutation, h);
                            assert(list@[j].0 == permutation);
                        }
                    }
                }
                Err(PmfxError::NotFound { kind: Missing::Pipeline, name })
            },
        }
    }

    /// The build hash of the base permutation of pipeline `pipeline_name` for `format`.
    pub fn get_render_pipeline_for_format(&self, pipeline_name: &str, format: usize) -> (r: Result<PmfxHash, PmfxError>)
        requires
            self.wf(),
        ensures
            r matches Ok(h) ==> format < self.formats@.len() && self.render_pipelines@[format as int]@.contains_key(pipeline_name@)
                && self.render_pipelines@[format as int]@[pipeline_name@]@.contains((0u32, h)),
            r is Err ==> format >= self.formats@.len() || !self.render_pipelines@[format as int]@.contains_key(pipeline_name@)
                || forall|h: PmfxHash| !self.render_pipelines@[format as int]@[pipeline_name@]@.contains((0u32, h)),
    {
        self.get_render_pipeline_permutation_for_format(pipeline_name, 0, format)
    }

    /// The build hash of compute pipeline `pipeline_name`, if built.
    pub fn get_compute_pipeline(&self, pipeline_name: &str) -> (r: Option<PmfxHash>)
        requires
            self.wf(),
        ensures
            r is Some <==> self.compute_pipelines@.contains_key(pipeline_name@),
            r matches Some(h) ==> h == self.compute_pipelines@[pipeline_name@],
    {
        match self.compute_pipelines.get(&pipeline_name.to_owned()) {
            Some(h) => Some(*h),
            None => None,
        }
    }

    /// The textures of `keys` that are built multisampled and so can be resolved.
    pub open spec fn resolvable_of(&self, keys: Seq<Seq<char>>) -> Seq<Seq<char>> {
        keys.filter(|k: Seq<char>| self.textures@.contains_key(k) && self.textures@[k].samples > 1)
    }

    /// The initial states for compiling a graph: every declared texture that is both
    /// sampled and written starts in shader-resource state.
    fn seed_transitions(&self) -> (r: NameMap<ResourceState>)
        requires
            self.wf(),
        ensures
            r.wf(),
            r.key_seq() == seed_keys(self.pmfx.textures.entries()),
            r@ == seed_states(r.key_seq()),
    {
        let ghost e = self.pmfx.textures.entries();
        let mut track: NameMap<ResourceState> = NameMap::new();
        let mut i: usize = 0;
        assert(seed_keys(e.take(0)) =~= Seq::<Seq<char>>::empty());
        assert(track@ =~= seed_states(track.key_seq()));
        while i < self.pmfx.textures.len()
            invariant
                self.wf(),
                e == self.pmfx.textures.entries(),
                i <= e.len(),
                track.wf(),
                track.key_seq() == seed_keys(e.take(i as int)),
                track@ == seed_states(track.key_seq()),
                forall|j: int| 0 <= j < track.key_seq().len() ==> key_among(e, i as int, #[trigger] track.key_seq()[j]),
            decreases e.len() - i,
        {
            let name = self.pmfx.textures.key_at(i);
            let info = self.pmfx.textures.value_at(i);
            let ghost before = track.key_seq();
            proof {
                let f = |x: (String, TextureInfo)| needs_transitions(x.1.usage@);
                assert(e.take(i + 1) =~= e.take(i as int).push(e[i as int]));
                reveal(Seq::filter);
                assert(e.take(i as int).push(e[i as int]).drop_last() =~= e.take(i as int));
                assert(e[i as int].0@ == name@);
                assert(e[i as int].1 == *info) by {
                    self.pmfx.textures.lemma_entry(i as int);
                }
            }
            if is_transitioned(&info.usage) {
                proof {
                    if track@.contains_key(name@) {
                        track.lemma_keys();
                        let j = choose|j: int| 0 <= j < track.key_seq().len() && track.key_seq()[j] == name@;
                        assert(key_among(e, i as int, track.key_seq()[j]));
                        let m = choose|m: int| 0 <= m < i && #[trigger] e[m].0@ == track.key_seq()[j];
                        assert(e[m].0@ == e[i as int].0@);
                    }
                }
                track.insert(name.clone(), ResourceState::ShaderResource);
                proof {
                    assert(track.key_seq() =~= seed_keys(e.take(i + 1)));
                    assert forall|k: Seq<char>| #[trigger] track.key_seq().contains(k) <==> (before.contains(k) || k == name@) by {
                        if track.key_seq().contains(k) {
                            let j = choose|j: int| 0 <= j < track.key_seq().len() && track.key_seq()[j] == k;
                            if j < before.len() {
                                assert(before[j] == k);
                            }
                        }
                        if before.contains(k) {
                            let j = choose|j: int| 0 <= j < before.len() && before[j] == k;
                            assert(track.key_seq()[j] == k);
                        }
                        if k == name@ {
                            assert(track.key_seq()[before.len() as int] == k);
                        }
                    }
                    assert(track@ =~= seed_states(track.key_seq()));
                    assert forall|j: int| 0 <= j < track.key_seq().len() implies key_among(e, i + 1, #[trigger] track.key_seq()[j]) by {
                        if j < before.len() {
                            assert(key_among(e, i as int, before[j]));
                            let m = choose|m: int| 0 <= m < i && #[trigger] e[m].0@ == before[j];
                            assert(e[m].0@ == track.key_seq()[j]);
                        } else {
                            assert(e[i as int].0@ == track.key_seq()[j]);
                        }
                    }
                }
            } else {
                assert(track.key_seq() =~= seed_keys(e.take(i + 1)));
                assert forall|j: int| 0 <= j < track.key_seq().len() implies key_among(e, i + 1, #[trigger] track.key_seq()[j]) by {
                    assert(key_among(e, i as int, track.key_seq()[j]));
                    let m = choose|m: int| 0 <= m < i && #[trigger] e[m].0@ == track.key_seq()[j];
                }
            }
            i += 1;
        }
        assert(e.take(e.len() as int) =~= e);
        track
    }

    /// The names of `keys` whose textures are built multisampled.
    fn resolvable_textures(&self, keys: &Vec<String>) -> (r: Vec<String>)
        requires
            self.wf(),
        ensures
            names_of(r@) == self.resolvable_of(names_of(keys@)),
    {
        let ghost ks = names_of(keys@);
        let mut r: Vec<String> = Vec::new();
        let mut i: usize = 0;
        assert(ks.take(0).filter(|k: Seq<char>| self.textures@.contains_key(k) && self.textures@[k].samples > 1) =~= Seq::<Seq<char>>::empty());
        while i < keys.len()
            invariant
                self.wf(),
                ks == names_of(keys@),
                i <= keys@.len(),
                names_of(r@) == ks.take(i as int).filter(|k: Seq<char>| self.textures@.contains_key(k) && self.textures@[k].samples > 1),
            decreases keys@.len() - i,
        {
            proof {
                assert(ks.take(i + 1) =~= ks.take(i as int).push(ks[i as int]));
                reveal(Seq::filter);
                assert(ks.take(i as int).push(ks[i as int]).drop_last() =~= ks.take(i as int));
            }
            let keep = match self.textures.get(&keys[i]) {
                Some(t) => t.samples > 1,
                None => false,
            };
            if keep {
                r.push(keys[i].clone());
            }
            assert(names_of(r@) =~= ks.take(i + 1).filter(|k: Seq<char>| self.textures@.contains_key(k) && self.textures@[k].samples > 1));
            i += 1;
        }
        assert(ks.take(keys@.len() as int) =~= ks);
        r
    }

    /// Builds the views of every node of render graph `graph_name`, skipping those built.
    pub fn create_render_graph_views(&mut self, graph_name: &str) -> (r: Result<(), PmfxError>)
        requires
            old(self).wf(),
        ensures
            final(self).wf(),
            final(self).pmfx == old(self).pmfx,
            final(self).sources == old(self).sources,
            final(self).window_sizes == old(self).window_sizes,
            forall|k: Seq<char>| #[trigger] old(self).textures@.contains_key(k) ==> final(self).textures@.contains_key(k)
                && final(self).textures@[k] == old(self).textures@[k],
            forall|k: Seq<char>| #[trigger] old(self).views@.contains_key(k) ==> final(self).views@.contains_key(k)
                && final(self).views@[k] == old(self).views@[k],
            Self::keeps_built(*old(self), *final(self)),
            r is Ok && old(self).pmfx.render_graphs@.contains_key(graph_name@) ==> forall|j: int|
                0 <= j < old(self).pmfx.render_graphs@[graph_name@].entries().len()
                && old(self).pmfx.views@.contains_key(old(self).pmfx.render_graphs@[graph_name@].entries()[j].1.view@)
                ==> #[trigger] final(self).views@.contains_key(old(self).pmfx.render_graphs@[graph_name@].entries()[j].0@),
            r is Ok && old(self).pmfx.render_graphs@.contains_key(graph_name@) ==> Self::nodes_fresh(
                *old(self),
                *final(self),
                old(self).pmfx.render_graphs@[graph_name@].entries(),
            ),
            !old(self).pmfx.render_graphs@.contains_key(graph_name@) ==> r is Ok && *final(self) == *old(self),
            old(self).pmfx.render_graphs@.contains_key(graph_name@) ==> (r is Ok <==> Self::graph_views_ok(
                *old(self),
                *final(self),
                old(self).pmfx.render_graphs@[graph_name@].entries(),
            )),
            forall|k: Seq<char>| #[trigger] final(self).textures@.contains_key(k) ==> Self::target_ok(*old(self), k),
            Self::grows_declared(*old(self), *final(self)),
            Self::queued_new(*old(self), *final(self)),
            Self::built_within(*old(self), *final(self)),
    {
        proof {
            Self::lemma_queued_refl(*self);
        }
        let gname = graph_name.to_owned();
        if !self.pmfx.render_graphs.contains_key(&gname) {
            return Ok(());
        }
        let ghost g = self.pmfx.render_graphs@[gname@].entries();
        let n = self.pmfx.render_graphs.get(&gname).unwrap().len();
        let mut i: usize = 0;
        while i < n
            invariant
                n == g.len(),
                i <= n,
                self.wf(),
                self.pmfx == old(self).pmfx,
                self.sources == old(self).sources,
                self.window_sizes == old(self).window_sizes,
                old(self).pmfx.render_graphs@.contains_key(gname@),
                gname@ == graph_name@,
                g == old(self).pmfx.render_graphs@[graph_name@].entries(),
                Self::keeps_built(*old(self), *self),
                forall|k: Seq<char>| #[trigger] old(self).textures@.contains_key(k) ==> self.textures@.contains_key(k)
                    && self.textures@[k] == old(self).textures@[k],
                forall|k: Seq<char>| #[trigger] old(self).views@.contains_key(k) ==> self.views@.contains_key(k)
                    && self.views@[k] == old(self).views@[k],
                forall|j: int| 0 <= j < i && j < g.len() && old(self).pmfx.views@.contains_key(g[j].1.view@)
                    ==> #[trigger] self.views@.contains_key(g[j].0@),
                unique_keys(g),
                forall|k: Seq<char>| #[trigger] self.views@.contains_key(k) ==> old(self).views@.contains_key(k) || Self::node_among(g, i as int, k),
                forall|j: int|
                    0 <= j < i && old(self).pmfx.views@.contains_key(g[j].1.view@) && !old(self).views@.contains_key(#[trigger] g[j].0@)
                        ==> Self::view_fresh(*self, g[j].0@, old(self).pmfx.views@[g[j].1.view@]),
                forall|j: int|
                    0 <= j < i && old(self).pmfx.views@.contains_key(g[j].1.view@) && !old(self).views@.contains_key(#[trigger] g[j].0@)
                        ==> Self::targets_buildable(*old(self), old(self).pmfx.views@[g[j].1.view@])
                            && Self::targets_agree(*self, old(self).pmfx.views@[g[j].1.view@]),
                forall|k: Seq<char>| #[trigger] self.textures@.contains_key(k) ==> Self::target_ok(*old(self), k),
                Self::grows_declared(*old(self), *self),
                Self::queued_new(*old(self), *self),
                Self::built_within(*old(self), *self),
            decreases g.len() - i,
        {
            let graph = self.pmfx.render_graphs.get(&gname).unwrap();
            let node_name = graph.key_at(i).clone();
            let node = graph.value_at(i).clone_node();
            proof {
                assert(node_name@ == g[i as int].0@);
            }
            let ghost before = self.views@;
            let ghost pre = *self;
            let c = self.create_view(node.view.as_str(), node_name.as_str(), &node);
            proof {
                Self::lemma_grows_trans(*old(self), pre, *self);
                Self::lemma_queued_trans(*old(self), pre, *self);
                Self::lemma_within_trans(*old(self), pre, *self);
                let vi = old(self).pmfx.views@[g[i as int].1.view@];
                assert forall|t: Seq<char>| Self::target_ok(pre, t) == Self::target_ok(*old(self), t) by {
                    if pre.textures@.contains_key(t) {
                        assert(Self::target_ok(*old(self), t));
                    }
                }
                assert(Self::targets_buildable(pre, vi) == Self::targets_buildable(*old(self), vi));
                assert forall|k: Seq<char>| #[trigger] self.textures@.contains_key(k) implies Self::target_ok(*old(self), k) by {
                    assert(Self::target_ok(pre, k));
                }
                if pre.views@.contains_key(g[i as int].0@) && !old(self).views@.contains_key(g[i as int].0@) {
                    let m = choose|m: int| 0 <= m < i && #[trigger] g[m].0@ == g[i as int].0@;
                    assert(g[m].0@ == g[i as int].0@);
                }
            }
            if c.is_err() {
                proof {
                    assert(!Self::graph_views_ok(*old(self), *self, g)) by {
                        let vi = old(self).pmfx.views@[g[i as int].1.view@];
                        assert(!(Self::targets_buildable(*old(self), vi) && Self::targets_agree(*self, vi)));
                    }
                }
                return c;
            }
            proof {
                assert forall|j: int|
                    0 <= j < i + 1 && old(self).pmfx.views@.contains_key(g[j].1.view@) && !old(self).views@.contains_key(#[trigger] g[j].0@)
                    implies Self::targets_buildable(*old(self), old(self).pmfx.views@[g[j].1.view@])
                        && Self::targets_agree(*self, old(self).pmfx.views@[g[j].1.view@]) by {
                    let vi = old(self).pmfx.views@[g[j].1.view@];
                    if j < i {
                        assert(Self::view_fresh(pre, g[j].0@, vi));
                        assert forall|jj: int| 0 <= jj < targets_of(vi).len() implies pre.textures@.contains_key(#[trigger] targets_of(vi)[jj]) by {
                            if jj < vi.render_target@.len() {
                                assert(targets_of(vi)[jj] == vi.render_target@[jj]@);
                            } else {
                                assert(targets_of(vi)[jj] == vi.depth_stencil@[jj - vi.render_target@.len()]@);
                            }
                        }
                        if targets_of(vi).len() > 0 {
                            assert(pre.textures@.contains_key(targets_of(vi)[0]));
                        }
                    }
                }
            }
            proof {
                assert forall|k: Seq<char>| #[trigger] self.views@.contains_key(k) implies old(self).views@.contains_key(k)
                    || Self::node_among(g, i + 1, k) by {
                    if !pre.views@.contains_key(k) {
                        assert(k == g[i as int].0@);
                    } else if !old(self).views@.contains_key(k) {
                        let m = choose|m: int| 0 <= m < i && #[trigger] g[m].0@ == k;
                        assert(g[m].0@ == k);
                    }
                }
                assert forall|j: int|
                    0 <= j < i + 1 && old(self).pmfx.views@.contains_key(g[j].1.view@) && !old(self).views@.contains_key(#[trigger] g[j].0@)
                    implies Self::view_fresh(*self, g[j].0@, old(self).pmfx.views@[g[j].1.view@]) by {
                    if j < i {
                        Self::lemma_view_fresh_kept(pre, *self, g[j].0@, old(self).pmfx.views@[g[j].1.view@]);
                    } else {
                        if pre.views@.contains_key(g[j].0@) {
                            let m = choose|m: int| 0 <= m < i && #[trigger] g[m].0@ == g[j].0@;
                            assert(g[m].0@ == g[j].0@);
                        }
                    }
                }
                assert forall|j: int| 0 <= j < i + 1 && j < g.len() && old(self).pmfx.views@.contains_key(g[j].1.view@)
                    implies #[trigger] self.views@.contains_key(g[j].0@) by {
                    if j < i {
                        assert(before.contains_key(g[j].0@));
                    }
                }
            }
            i += 1;
        }
        Ok(())
    }


    /// Pipeline `n` can be had for pass format `f` starting from `a`: it is declared, and
    /// built for `f` already or with all its shaders built or declared.
    pub open spec fn pipeline_ok(a: Self, n: Seq<char>, f: int) -> bool {
        a.pmfx.pipelines@.contains_key(n) && ((0 <= f < a.render_pipelines@.len() && a.render_pipelines@[f]@.contains_key(n))
            || Self::shaders_available(a, a.pmfx.pipelines@[n]@))
    }

    /// Every pipeline a node of `order` names can be had, starting from `a`, for the pass
    /// format of the node's view in `b`.
    pub open spec fn graph_pipelines_ok(a: Self, b: Self, g: Seq<(String, GraphViewInfo)>, order: Seq<int>) -> bool {
        forall|k: int, p: int|
            0 <= k < order.len() && 0 <= p < g[order[k]].1.pipelines@.len() ==> Self::pipeline_ok(
                a,
                #[trigger] g[order[k]].1.pipelines@[p]@,
                b.views@[g[order[k]].0@].format as int,
            )
    }

    /// Compiles render graph `graph_name` and makes it the active graph: builds the views
    /// of its nodes, orders the nodes and inserts the transitions between them (see
    /// `compile_render_graph`), builds the pipelines its scheduled nodes name against their
    /// views' pass formats, and queues the barriers for building. Fails when the graph is
    /// not declared, or a view or pipeline cannot be built.
    pub fn create_render_graph(&mut self, graph_name: &str) -> (r: Result<(), PmfxError>)
        requires
            old(self).wf(),
        ensures
            final(self).wf(),
            !old(self).pmfx.render_graphs@.contains_key(graph_name@) ==> r is Err && *final(self) == *old(self),
            final(self).pmfx == old(self).pmfx,
            final(self).sources == old(self).sources,
            final(self).window_sizes == old(self).window_sizes,
            forall|k: Seq<char>| #[trigger] old(self).textures@.contains_key(k) ==> final(self).textures@.contains_key(k)
                && final(self).textures@[k] == old(self).textures@[k],
            forall|k: Seq<char>| #[trigger] old(self).views@.contains_key(k) ==> final(self).views@.contains_key(k)
                && final(self).views@[k] == old(self).views@[k],
            Self::keeps_built(*old(self), *final(self)),
            Self::grows_declared(*old(self), *final(self)),
            Self::queued_new(*old(self), *final(self)),
            Self::built_within(*old(self), *final(self)),
            old(self).pmfx.render_graphs@.contains_key(graph_name@) ==> (r is Ok <==> {
                let g = old(self).pmfx.render_graphs@[graph_name@].entries();
                &&& Self::graph_views_ok(*old(self), *final(self), g)
                &&& Self::graph_pipelines_ok(*old(self), *final(self), g, schedule(g, old(self).pmfx.views@))
            }),
            r is Ok ==> {
                let g = final(self).pmfx.render_graphs@[graph_name@].entries();
                let keys = seed_keys(final(self).pmfx.textures.entries());
                &&& final(self).pmfx.render_graphs@.contains_key(graph_name@)
                &&& steps_of(final(self).compiled.entries@) == compile(
                    g,
                    final(self).pmfx.views@,
                    seed_states(keys),
                    keys,
                    final(self).resolvable_of(keys),
                )
                &&& final(self).active_render_graph@ == graph_name@
                &&& Self::nodes_fresh(*old(self), *final(self), g)
                &&& names_of(final(self).compiled.unscheduled@) == crate::graph::unscheduled_of(g, schedule(g, final(self).pmfx.views@), g.len() as int)
                &&& final(self).compiled.missing_dependencies@.map_values(|q: (String, String)| (q.0@, q.1@))
                    == crate::graph::missing_deps_of(g, g.len() as int)
                &&& names_of(final(self).compiled.resolve_errors@) == crate::graph::unresolvable_of(keys, final(self).resolvable_of(keys), keys.len() as int)
                &&& final(self).commands@.len() > 0 && final(self).commands@.last() is BuildBarriers
                &&& consistent(seed_states(keys), steps_of(final(self).compiled.entries@))
                &&& nodes_ok(g, final(self).pmfx.views@, seed_states(keys), steps_of(final(self).compiled.entries@))
                &&& forall|t: Seq<char>| #[trigger] keys.contains(t) ==> replay(seed_states(keys), steps_of(final(self).compiled.entries@))[t]
                    == ResourceState::ShaderResource
            },
    {
        proof {
            Self::lemma_queued_refl(*self);
        }
        let gname = graph_name.to_owned();
        if !self.pmfx.render_graphs.contains_key(&gname) {
            return Err(PmfxError::NotFound { kind: Missing::RenderGraph, name: gname });
        }
        let c = self.create_render_graph_views(graph_name);
        if c.is_err() {
            return c;
        }
        let ghost with_views = *self;
        let ghost g = old(self).pmfx.render_graphs@[graph_name@].entries();
        let track = self.seed_transitions();
        let keys = track.keys();
        proof {
            assert(names_of(keys@) =~= track.key_seq());
        }
        let resolvable = self.resolvable_textures(&keys);
        let graph = self.pmfx.render_graphs.get(&gname).unwrap();
        proof {
            let ps = self.pmfx.render_graphs@;
            assert(ps.contains_key(gname@));
        }
        let ghost track_view = track@;
        let ghost track_keys = track.key_seq();
        let compiled = compile_render_graph(graph, &self.pmfx.views, track, &resolvable);
        let order = crate::graph::schedule_nodes(graph, &self.pmfx.views);
        proof {
            assert(valid_order(g, self.pmfx.views@, Seq::<int>::empty()));
            lemma_schedule_valid(g, self.pmfx.views@, Seq::<int>::empty(), (g.len() + 1) as nat);
            assert forall|m: int| 0 <= m < order@.len() implies self.views@.contains_key(#[trigger] g[order@[m] as int].0@) by {
                assert(ints(order@)[m] == order@[m] as int);
                let j = order@[m] as int;
                if old(self).views@.contains_key(g[j].0@) {
                } else {
                    assert(old(self).pmfx.views@.contains_key(g[j].1.view@));
                }
            }
        }
        // build the pipelines that scheduled nodes ask for
        let ghost textures_now = self.textures;
        let ghost views_now = self.views;
        let mut k: usize = 0;
        while k < order.len()
            invariant
                self.wf(),
                self.pmfx == old(self).pmfx,
                self.sources == old(self).sources,
                self.textures == textures_now,
                self.views == views_now,
                self.window_sizes == old(self).window_sizes,
                forall|k: Seq<char>| #[trigger] old(self).textures@.contains_key(k) ==> self.textures@.contains_key(k)
                    && self.textures@[k] == old(self).textures@[k],
                forall|k: Seq<char>| #[trigger] old(self).views@.contains_key(k) ==> self.views@.contains_key(k)
                    && self.views@[k] == old(self).views@[k],
                self.pmfx.render_graphs@.contains_key(gname@),
                Self::keeps_built(*old(self), *self),
                forall|m: int| 0 <= m < order@.len() ==> order@[m] < self.pmfx.render_graphs@[gname@].entries().len(),
                gname@ == graph_name@,
                g == self.pmfx.render_graphs@[gname@].entries(),
                ints(order@) == schedule(g, old(self).pmfx.views@),
                forall|m: int| 0 <= m < order@.len() ==> self.views@.contains_key(#[trigger] g[order@[m] as int].0@),
                Self::grows_declared(*old(self), *self),
                Self::graph_views_ok(*old(self), *self, g),
                old(self).wf(),
                Self::queued_new(*old(self), *self),
                Self::built_within(*old(self), *self),
                forall|kk: int, pp: int| 0 <= kk < k && 0 <= pp < g[order@[kk] as int].1.pipelines@.len() ==> Self::pipeline_ok(
                    *old(self),
                    #[trigger] g[order@[kk] as int].1.pipelines@[pp]@,
                    views_now@[g[order@[kk] as int].0@].format as int,
                ),
            decreases order@.len() - k,
        {
            let graph = self.pmfx.render_graphs.get(&gname).unwrap();
            let idx = order[k];
            let node_name = graph.key_at(idx).clone();
            let pipelines = clone_names(&graph.value_at(idx).pipelines);
            proof {
                assert(graph.entries()[idx as int].0@ == node_name@);
                assert(pipelines@ == g[idx as int].1.pipelines@);
                assert(self.views@.contains_key(g[order@[k as int] as int].0@));
            }
            let format = match self.views.get(&node_name) {
                None => return Err(PmfxError::NotFound { kind: Missing::View, name: node_name }),
                Some(v) => v.format,
            };
            let mut p: usize = 0;
            while p < pipelines.len()
                invariant
                    self.wf(),
                    self.pmfx == old(self).pmfx,
                    self.sources == old(self).sources,
                    self.textures == textures_now,
                    self.views == views_now,
                    self.window_sizes == old(self).window_sizes,
                    forall|k: Seq<char>| #[trigger] old(self).textures@.contains_key(k) ==> self.textures@.contains_key(k)
                        && self.textures@[k] == old(self).textures@[k],
                    forall|k: Seq<char>| #[trigger] old(self).views@.contains_key(k) ==> self.views@.contains_key(k)
                        && self.views@[k] == old(self).views@[k],
                    format < self.formats@.len(),
                    self.pmfx.render_graphs@.contains_key(gname@),
                    gname@ == graph_name@,
                    Self::keeps_built(*old(self), *self),
                    g == self.pmfx.render_graphs@[gname@].entries(),
                    ints(order@) == schedule(g, old(self).pmfx.views@),
                    forall|m: int| 0 <= m < order@.len() ==> self.views@.contains_key(#[trigger] g[order@[m] as int].0@),
                    Self::grows_declared(*old(self), *self),
                    Self::graph_views_ok(*old(self), *self, g),
                    Self::queued_new(*old(self), *self),
                    Self::built_within(*old(self), *self),
                    k < order@.len(),
                    old(self).wf(),
                    idx == order@[k as int],
                    pipelines@ == g[idx as int].1.pipelines@,
                    format == views_now@[g[idx as int].0@].format,
                    forall|kk: int, pp: int| 0 <= kk < k && 0 <= pp < g[order@[kk] as int].1.pipelines@.len() ==> Self::pipeline_ok(
                        *old(self),
                        #[trigger] g[order@[kk] as int].1.pipelines@[pp]@,
                        views_now@[g[order@[kk] as int].0@].format as int,
                    ),
                    forall|pp: int| 0 <= pp < p ==> Self::pipeline_ok(*old(self), #[trigger] pipelines@[pp]@, format as int),
                decreases pipelines@.len() - p,
            {
                let ghost pre = *self;
                let c = self.create_pipeline(pipelines[p].as_str(), format);
                proof {
                    let n = pipelines@[p as int]@;
                    Self::lemma_grows_trans(*old(self), pre, *self);
                    Self::lemma_queued_trans(*old(self), pre, *self);
                    Self::lemma_within_trans(*old(self), pre, *self);
                    Self::lemma_available(*old(self), pre, old(self).pmfx.pipelines@[n]@);
                    if c is Ok && old(self).pmfx.pipelines@.contains_key(n) {
                        if pre.render_pipelines@[format as int]@.contains_key(n) {
                            assert(pre.render_pipelines@[format as int]@.contains_key(n));
                        }
                    }
                    if c is Err && old(self).pmfx.pipelines@.contains_key(n) && 0 <= format < old(self).render_pipelines@.len()
                        && old(self).render_pipelines@[format as int]@.contains_key(n) {
                        assert(pre.render_pipelines@[format as int]@.contains_key(n));
                    }
                }
                if c.is_err() {
                    proof {
                        assert(g[order@[k as int] as int].1.pipelines@[p as int] == pipelines@[p as int]);
                        assert(!Self::pipeline_ok(*old(self), g[order@[k as int] as int].1.pipelines@[p as int]@, views_now@[g[order@[k as int] as int].0@].format as int));
                        let sch = schedule(g, old(self).pmfx.views@);
                        assert(sch[k as int] == order@[k as int] as int);
                        assert(self.views == views_now);
                        assert(!Self::pipeline_ok(*old(self), g[sch[k as int]].1.pipelines@[p as int]@, self.views@[g[sch[k as int]].0@].format as int));
                        assert(!Self::graph_pipelines_ok(*old(self), *self, g, sch));
                    }
                    return c;
                }
                p += 1;
            }
            proof {
                assert forall|kk: int, pp: int| 0 <= kk < k + 1 && 0 <= pp < g[order@[kk] as int].1.pipelines@.len() implies Self::pipeline_ok(
                    *old(self),
                    #[trigger] g[order@[kk] as int].1.pipelines@[pp]@,
                    views_now@[g[order@[kk] as int].0@].format as int,
                ) by {
                    if kk == k {
                        assert(g[order@[kk] as int].1.pipelines@[pp] == pipelines@[pp]);
                    }
                }
            }
            k += 1;
        }
        self.compiled = compiled;
        self.active_render_graph = gname;
        let ghost before_barriers = *self;
        self.commands.push(DeviceCommand::BuildBarriers);
        proof {
            let nb = before_barriers.commands@.len();
            assert forall|x: int| 0 <= x < old(self).commands@.len() implies self.commands@[x] == old(self).commands@[x] by {
                assert(before_barriers.commands@.take(old(self).commands@.len() as int)[x] == old(self).commands@[x]);
            }
            assert(self.commands@.take(old(self).commands@.len() as int) =~= old(self).commands@);
            assert forall|x: int| old(self).commands@.len() <= x < self.commands@.len() implies Self::creates_new(*old(self), #[trigger] self.commands@[x]) by {
                if x < nb {
                    assert(self.commands@[x] == before_barriers.commands@[x]);
                }
            }
            assert(Self::built_within(*old(self), *self)) by {
                assert forall|f: int, nn: Seq<char>, m: u32| #[trigger] Self::has_permutation(*old(self), f, nn, m) implies Self::has_permutation(*self, f, nn, m) by {
                    assert(Self::has_permutation(before_barriers, f, nn, m));
                }
            }
            let keys = seed_keys(self.pmfx.textures.entries());
            lemma_compile_states(g, self.pmfx.views@, seed_states(keys), keys, self.resolvable_of(keys));
            assert forall|t: Seq<char>| #[trigger] keys.contains(t) implies seed_states(keys).contains_key(t) by {}
            assert(views_now == with_views.views && textures_now == with_views.textures);
            let g = self.pmfx.render_graphs@[graph_name@].entries();
            assert forall|j: int|
                0 <= j < g.len() && old(self).pmfx.views@.contains_key(g[j].1.view@) && !old(self).views@.contains_key(#[trigger] g[j].0@)
                implies Self::view_fresh(*self, g[j].0@, old(self).pmfx.views@[g[j].1.view@]) by {
                assert(Self::view_fresh(with_views, g[j].0@, old(self).pmfx.views@[g[j].1.view@]));
            }
        }
        Ok(())
    }


    /// Command `c` destroys or creates one of the textures `names`.
    pub open spec fn texture_cmd_in(c: DeviceCommand, names: Seq<Seq<char>>) -> bool {
        match c {
            DeviceCommand::DestroyTexture { name } => names.contains(name@),
            DeviceCommand::CreateTexture { name, .. } => names.contains(name@),
            _ => false,
        }
    }

    /// From position `from` on, `cmds` destroys texture `t` and right after creates it again.
    pub open spec fn replaced(cmds: Seq<DeviceCommand>, from: int, t: Seq<char>) -> bool {
        exists|x: int|
            from <= x && x + 1 < cmds.len() && (#[trigger] cmds[x] matches DeviceCommand::DestroyTexture { name } && name@ == t)
                && (cmds[x + 1] matches DeviceCommand::CreateTexture { name: n2, .. } && n2@ == t)
    }

    /// Destroys and creates again each texture of `names` that is built, at the size it
    /// gets now.
    fn recreate_textures(&mut self, names: &Vec<String>) -> (r: Result<(), PmfxError>)
        requires
            old(self).wf(),
        ensures
            final(self).wf(),
            final(self).pmfx == old(self).pmfx,
            final(self).sources == old(self).sources,
            final(self).window_sizes == old(self).window_sizes,
            final(self).views == old(self).views,
            final(self).shaders == old(self).shaders,
            final(self).render_pipelines == old(self).render_pipelines,
            final(self).formats == old(self).formats,
            final(self).view_texture_refs == old(self).view_texture_refs,
            final(self).active_render_graph == old(self).active_render_graph,
            forall|k: Seq<char>| #[trigger] old(self).textures@.contains_key(k) && !names_of(names@).contains(k)
                ==> final(self).textures@.contains_key(k) && final(self).textures@[k] == old(self).textures@[k],
            r is Err ==> exists|j: int| 0 <= j < names@.len() && old(self).pmfx.textures@.contains_key(#[trigger] names@[j]@)
                && final(self).size_for(old(self).pmfx.textures@[names@[j]@]) is None,
            r is Ok ==> forall|j: int| 0 <= j < names@.len() && old(self).pmfx.textures@.contains_key(#[trigger] names@[j]@)
                ==> final(self).textures@.contains_key(names@[j]@)
                && Some(final(self).textures@[names@[j]@].size) == final(self).size_for(final(self).pmfx.textures@[names@[j]@])
                && final(self).textures@[names@[j]@].hash == final(self).pmfx.textures@[names@[j]@].hash,
            old(self).commands@.len() <= final(self).commands@.len(),
            final(self).commands@.take(old(self).commands@.len() as int) == old(self).commands@,
            forall|x: int| old(self).commands@.len() <= x < final(self).commands@.len() ==> Self::texture_cmd_in(
                #[trigger] final(self).commands@[x],
                names_of(names@),
            ),
            r is Ok ==> forall|j: int| 0 <= j < names@.len() && old(self).textures@.contains_key(#[trigger] names@[j]@)
                && old(self).pmfx.textures@.contains_key(names@[j]@) ==> Self::replaced(
                final(self).commands@,
                old(self).commands@.len() as int,
                names@[j]@,
            ),
    {
        let mut i: usize = 0;
        assert(self.commands@.take(old(self).commands@.len() as int) =~= old(self).commands@);
        while i < names.len()
            invariant
                self.wf(),
                i <= names@.len(),
                self.pmfx == old(self).pmfx,
                self.sources == old(self).sources,
                self.window_sizes == old(self).window_sizes,
                self.views == old(self).views,
                self.shaders == old(self).shaders,
                self.render_pipelines == old(self).render_pipelines,
                self.formats == old(self).formats,
                self.view_texture_refs == old(self).view_texture_refs,
                self.active_render_graph == old(self).active_render_graph,
                forall|k: Seq<char>| #[trigger] old(self).textures@.contains_key(k) && !names_of(names@).contains(k)
                    ==> self.textures@.contains_key(k) && self.textures@[k] == old(self).textures@[k],
                forall|j: int| 0 <= j < i && old(self).pmfx.textures@.contains_key(#[trigger] names@[j]@)
                    ==> self.textures@.contains_key(names@[j]@)
                    && Some(self.textures@[names@[j]@].size) == self.size_for(self.pmfx.textures@[names@[j]@])
                    && self.textures@[names@[j]@].hash == self.pmfx.textures@[names@[j]@].hash,
                old(self).commands@.len() <= self.commands@.len(),
                self.commands@.take(old(self).commands@.len() as int) == old(self).commands@,
                forall|x: int| old(self).commands@.len() <= x < self.commands@.len() ==> Self::texture_cmd_in(
                    #[trigger] self.commands@[x],
                    names_of(names@),
                ),
                forall|j: int| 0 <= j < i && old(self).textures@.contains_key(#[trigger] names@[j]@)
                    && old(self).pmfx.textures@.contains_key(names@[j]@) ==> Self::replaced(
                    self.commands@,
                    old(self).commands@.len() as int,
                    names@[j]@,
                ),
                forall|k: Seq<char>| #[trigger] old(self).textures@.contains_key(k) && old(self).pmfx.textures@.contains_key(k)
                    ==> self.textures@.contains_key(k),
            decreases names@.len() - i,
        {
            let name = &names[i];
            let ghost prev = self.textures@;
            let ghost c0 = self.commands@;
            proof {
                assert(names_of(names@)[i as int] == name@);
            }
            if self.textures.contains_key(name) {
                self.textures.remove(name);
                self.commands.push(DeviceCommand::DestroyTexture { name: name.clone() });
            }
            let ghost c1 = self.commands@;
            proof {
                assert forall|x: int| 0 <= x < old(self).commands@.len() implies self.commands@[x] == old(self).commands@[x] by {
                    assert(c0.take(old(self).commands@.len() as int)[x] == old(self).commands@[x]);
                }
                assert(self.commands@.take(old(self).commands@.len() as int) =~= old(self).commands@);
            }
            proof {
                assert(names_of(names@)[i as int] == name@);
                assert forall|k: Seq<char>| #[trigger] old(self).textures@.contains_key(k) && !names_of(names@).contains(k)
                    implies self.textures@.contains_key(k) && self.textures@[k] == old(self).textures@[k] by {
                    assert(k != name@);
                    assert(prev.contains_key(k));
                }
            }
            let c = self.create_texture(name.as_str());
            proof {
                assert forall|x: int| 0 <= x < c1.len() implies self.commands@[x] == c1[x] by {
                    assert(self.commands@.take(c1.len() as int)[x] == c1[x]);
                }
                assert forall|x: int| 0 <= x < old(self).commands@.len() implies self.commands@[x] == old(self).commands@[x] by {
                    assert(c1.take(old(self).commands@.len() as int)[x] == old(self).commands@[x]);
                }
                assert(self.commands@.take(old(self).commands@.len() as int) =~= old(self).commands@);
                assert forall|x: int| old(self).commands@.len() <= x < self.commands@.len() implies Self::texture_cmd_in(
                    #[trigger] self.commands@[x], names_of(names@)) by {
                    if x < c1.len() {
                        assert(self.commands@[x] == c1[x]);
                        if x >= c0.len() {
                            assert(c1[x] matches DeviceCommand::DestroyTexture { name: n } && n@ == name@);
                        }
                    }
                }
            }
            if c.is_err() {
                return c;
            }
            proof {
                assert(names_of(names@)[i as int] == name@);
                assert forall|j: int| 0 <= j < i + 1 && old(self).textures@.contains_key(#[trigger] names@[j]@)
                    && old(self).pmfx.textures@.contains_key(names@[j]@) implies Self::replaced(
                    self.commands@, old(self).commands@.len() as int, names@[j]@) by {
                    if j < i {
                        let x = choose|x: int| old(self).commands@.len() <= x && x + 1 < c0.len()
                            && (#[trigger] c0[x] matches DeviceCommand::DestroyTexture { name } && name@ == names@[j]@)
                            && (c0[x + 1] matches DeviceCommand::CreateTexture { name: n2, .. } && n2@ == names@[j]@);
                        assert(self.commands@[x] == c1[x]);
                        assert(c1[x] == c0[x]);
                        assert(self.commands@[x + 1] == c1[x + 1]);
                        assert(c1[x + 1] == c0[x + 1]);
                    } else {
                        assert(prev.contains_key(name@));
                        assert(self.commands@[c0.len() as int] == c1[c0.len() as int]);
                    }
                }
                assert forall|k: Seq<char>| #[trigger] old(self).textures@.contains_key(k) && old(self).pmfx.textures@.contains_key(k)
                    implies self.textures@.contains_key(k) by {
                    if k != name@ {
                        assert(prev.contains_key(k));
                    }
                }
                assert forall|j: int| 0 <= j < i + 1 && old(self).pmfx.textures@.contains_key(#[trigger] names@[j]@)
                    implies self.textures@.contains_key(names@[j]@)
                    && Some(self.textures@[names@[j]@].size) == self.size_for(self.pmfx.textures@[names@[j]@])
                    && self.textures@[names@[j]@].hash == self.pmfx.textures@[names@[j]@].hash by {
                    if j < i && names@[j]@ != name@ {
                        assert(prev.contains_key(names@[j]@));
                    }
                }
            }
            i += 1;
        }
        Ok(())
    }

    /// The views that render to texture `texture_name`.
    pub fn get_view_texture_refs(&self, texture_name: &str) -> (r: Vec<String>)
        requires
            self.wf(),
        ensures
            self.view_texture_refs@.contains_key(texture_name@) ==> r@ == self.view_texture_refs@[texture_name@]@,
            !self.view_texture_refs@.contains_key(texture_name@) ==> r@.len() == 0,
    {
        match self.view_texture_refs.get(&texture_name.to_owned()) {
            Some(l) => clone_names(l),
            None => Vec::new(),
        }
    }

    /// The known size of window `window_name`, or (0, 0).
    pub fn get_window_size(&self, window_name: &str) -> (r: (u32, u32))
        requires
            self.wf(),
        ensures
            r == if self.window_sizes@.contains_key(window_name@) { self.window_sizes@[window_name@] } else { (0u32, 0u32) },
    {
        match self.window_sizes.get(&window_name.to_owned()) {
            Some(s) => *s,
            None => (0, 0),
        }
    }


    /// Texture `t` follows window `name`, which was known and changes to `size`.
    pub open spec fn resized(a: Self, t: Seq<char>, name: Seq<char>, size: (u32, u32)) -> bool {
        &&& a.textures@.contains_key(t)
        &&& follows_window(a.textures@[t].ratio, name)
        &&& a.window_sizes@.contains_key(name)
        &&& a.window_sizes@[name] != size
    }

    /// View `v` is built in `a` and renders to a texture that `name`'s new size resizes.
    pub open spec fn destroyed_by_resize(a: Self, v: Seq<char>, name: Seq<char>, size: (u32, u32)) -> bool {
        exists|t: Seq<char>|
            #[trigger] Self::resized(a, t, name, size) && a.view_texture_refs@.contains_key(t)
                && names_of(a.view_texture_refs@[t]@).contains(v) && a.views@.contains_key(v)
    }

    /// Every node of the active graph whose view rendered to a texture that `name`'s new
    /// size resizes has its view built again, fresh, in `b`.
    pub open spec fn views_rebuilt(a: Self, b: Self, name: Seq<char>, size: (u32, u32)) -> bool {
        let g = a.pmfx.render_graphs@[a.active_render_graph@].entries();
        forall|t: Seq<char>, j: int|
            #[trigger] Self::resized(a, t, name, size) && 0 <= j < g.len() && a.view_texture_refs@.contains_key(t)
                && names_of(a.view_texture_refs@[t]@).contains(#[trigger] g[j].0@) && a.views@.contains_key(g[j].0@)
                && a.pmfx.views@.contains_key(g[j].1.view@) && a.pmfx.render_graphs@.contains_key(a.active_render_graph@)
                ==> Self::view_fresh(b, g[j].0@, a.pmfx.views@[g[j].1.view@])
    }


    /// Command `c` names a texture that `name`'s new size resizes, a view it destroys, or
    /// an object `a` had not built.
    pub open spec fn resize_cmd(a: Self, name: Seq<char>, size: (u32, u32), c: DeviceCommand) -> bool {
        match c {
            DeviceCommand::CreateTexture { name: t, .. } => Self::resized(a, t@, name, size) || !a.textures@.contains_key(t@),
            DeviceCommand::DestroyTexture { name: t } => Self::resized(a, t@, name, size) || !a.textures@.contains_key(t@),
            DeviceCommand::CreateView { name: v } => Self::destroyed_by_resize(a, v@, name, size) || !a.views@.contains_key(v@),
            DeviceCommand::DestroyView { name: v } => Self::destroyed_by_resize(a, v@, name, size) || !a.views@.contains_key(v@),
            DeviceCommand::CreateShader { file, .. } => !a.shaders@.contains_key(file@),
            DeviceCommand::CreateRenderPipeline { format, name: n, permutation, .. } => !Self::has_permutation(
                a,
                format as int,
                n@,
                permutation,
            ),
            DeviceCommand::CreateComputePipeline { .. } => true,
            DeviceCommand::BuildBarriers => true,
            _ => false,
        }
    }

    /// Every command `b` queued after `a`'s is a `resize_cmd`.
    pub open spec fn queued_resize(a: Self, name: Seq<char>, size: (u32, u32), b: Self) -> bool {
        &&& a.commands@.len() <= b.commands@.len()
        &&& b.commands@.take(a.commands@.len() as int) == a.commands@
        &&& forall|x: int| a.commands@.len() <= x < b.commands@.len() ==> Self::resize_cmd(a, name, size, #[trigger] b.commands@[x])
    }

    proof fn lemma_resize_from_new(o: Self, name: Seq<char>, size: (u32, u32), mid: Self, post: Self)
        requires
            Self::queued_resize(o, name, size, mid),
            Self::queued_new(mid, post),
            forall|t: Seq<char>| #[trigger] o.textures@.contains_key(t) && !Self::resized(o, t, name, size) ==> mid.textures@.contains_key(t),
            forall|v: Seq<char>| #[trigger] o.views@.contains_key(v) && !Self::destroyed_by_resize(o, v, name, size) ==> mid.views@.contains_key(v),
            mid.shaders == o.shaders,
            mid.render_pipelines == o.render_pipelines,
        ensures
            Self::queued_resize(o, name, size, post),
    {
        assert forall|x: int| 0 <= x < o.commands@.len() implies post.commands@[x] == o.commands@[x] by {
            assert(post.commands@.take(mid.commands@.len() as int)[x] == mid.commands@[x]);
            assert(mid.commands@.take(o.commands@.len() as int)[x] == o.commands@[x]);
        }
        assert(post.commands@.take(o.commands@.len() as int) =~= o.commands@);
        assert forall|x: int| o.commands@.len() <= x < post.commands@.len() implies Self::resize_cmd(o, name, size, #[trigger] post.commands@[x]) by {
            if x < mid.commands@.len() {
                assert(post.commands@.take(mid.commands@.len() as int)[x] == mid.commands@[x]);
                assert(post.commands@.take(mid.commands@.len() as int)[x] == post.commands@[x]);
            } else {
                assert(Self::creates_new(mid, post.commands@[x]));
                match post.commands@[x] {
                    DeviceCommand::CreateRenderPipeline { format, name: n, permutation, .. } => {
                        if Self::has_permutation(o, format as int, n@, permutation) {
                            assert(Self::has_permutation(mid, format as int, n@, permutation));
                        }
                    },
                    _ => {},
                }
            }
        }
    }

    /// Records the size of window `name`. When a known window changes size, every texture
    /// that follows it is created again at its new size, every view rendering to such a
    /// texture is destroyed, and if any was, the active render graph is compiled again,
    /// which builds those views anew.
    pub fn update_window(&mut self, size: (u32, u32), name: &str) -> (r: Result<(), PmfxError>)
        requires
            old(self).wf(),
        ensures
            final(self).wf(),
            final(self).window_sizes@ == old(self).window_sizes@.insert(name@, size),
            final(self).pmfx == old(self).pmfx,
            final(self).sources == old(self).sources,
            (forall|t: Seq<char>| #[trigger] Self::resized(*old(self), t, name@, size) && old(self).pmfx.textures@.contains_key(t)
                ==> final(self).size_for(old(self).pmfx.textures@[t]) is Some) ==> forall|t: Seq<char>|
                #[trigger] Self::resized(*old(self), t, name@, size) && old(self).pmfx.textures@.contains_key(t)
                ==> final(self).textures@.contains_key(t) && Some(final(self).textures@[t].size) == final(self).size_for(final(self).pmfx.textures@[t])
                && Self::replaced(final(self).commands@, old(self).commands@.len() as int, t),
            Self::queued_resize(*old(self), name@, size, *final(self)),
            r is Ok ==> Self::views_rebuilt(*old(self), *final(self), name@, size),
            !(old(self).window_sizes@.contains_key(name@) && old(self).window_sizes@[name@] != size) ==> {
                &&& r is Ok
                &&& final(self).textures == old(self).textures
                &&& final(self).views == old(self).views
                &&& final(self).compiled == old(self).compiled
                &&& final(self).commands == old(self).commands
                &&& final(self).shaders == old(self).shaders
                &&& final(self).render_pipelines == old(self).render_pipelines
            },
            forall|t: Seq<char>| #[trigger] old(self).textures@.contains_key(t) && !follows_window(old(self).textures@[t].ratio, name@)
                ==> final(self).textures@.contains_key(t) && final(self).textures@[t] == old(self).textures@[t],
            r is Err ==> (exists|v: Seq<char>| #[trigger] Self::destroyed_by_resize(*old(self), v, name@, size))
                || (exists|t: Seq<char>| #[trigger] Self::resized(*old(self), t, name@, size) && old(self).pmfx.textures@.contains_key(t)
                    && final(self).size_for(old(self).pmfx.textures@[t]) is None),
    {
        let wname = name.to_owned();
        let mut recreate: Vec<String> = Vec::new();
        let mut rebuild: Vec<String> = Vec::new();
        let resized = match self.window_sizes.get(&wname) {
            Some(old_size) => old_size.0 != size.0 || old_size.1 != size.1,
            None => false,
        };
        if !resized {
            self.window_sizes.insert(wname, size);
            proof {
                assert(self.commands@.take(old(self).commands@.len() as int) =~= old(self).commands@);
            }
            return Ok(());
        }
        if resized {
            let mut i: usize = 0;
            while i < self.textures.len()
                invariant
                    self.wf(),
                    *self == *old(self),
                    i <= self.textures.entries().len(),
                    forall|j: int| 0 <= j < i && follows_window((#[trigger] self.textures.entries()[j]).1.ratio, wname@)
                        ==> names_of(recreate@).contains(self.textures.entries()[j].0@),
                    forall|j: int| 0 <= j < recreate@.len() ==> self.textures@.contains_key(#[trigger] recreate@[j]@)
                        && follows_window(self.textures@[recreate@[j]@].ratio, wname@),
                decreases self.textures.entries().len() - i,
            {
                let follows = match &self.textures.value_at(i).ratio {
                    Some(q) => q.window == wname,
                    None => false,
                };
                if follows {
                    let ghost before = recreate@;
                    recreate.push(self.textures.key_at(i).clone());
                    proof {
                        assert(names_of(recreate@)[before.len() as int] == self.textures.key_seq()[i as int]);
                        self.textures.lemma_entry(i as int);
                        assert forall|j: int| 0 <= j < recreate@.len() implies self.textures@.contains_key(#[trigger] recreate@[j]@)
                            && follows_window(self.textures@[recreate@[j]@].ratio, wname@) by {
                            if j < before.len() {
                                assert(recreate@[j] == before[j]);
                            }
                        }
                        assert forall|j: int| 0 <= j < i + 1 && follows_window((#[trigger] self.textures.entries()[j]).1.ratio, wname@)
                            implies names_of(recreate@).contains(self.textures.entries()[j].0@) by {
                            if j < i {
                                let k = choose|k: int| 0 <= k < names_of(before).len() && names_of(before)[k] == self.textures.entries()[j].0@;
                                assert(names_of(recreate@)[k] == self.textures.entries()[j].0@);
                            } else {
                                self.textures.lemma_entry(j);
                            }
                        }
                    }
                }
                i += 1;
            }
            proof {
                assert forall|t: Seq<char>| #[trigger] old(self).textures@.contains_key(t) && follows_window(old(self).textures@[t].ratio, name@) implies names_of(recreate@).contains(t) by {
                    let j = choose|j: int| 0 <= j < self.textures.entries().len() && #[trigger] self.textures.entries()[j].0@ == t;
                    self.textures.lemma_entry(j);
                }
                assert forall|j: int| 0 <= j < recreate@.len() implies #[trigger] Self::resized(*old(self), recreate@[j]@, name@, size) by {
                    assert(self.textures@.contains_key(recreate@[j]@));
                }
            }
            // views rendering to a resized texture are rebuilt
            proof {
                assert(self.commands@.take(old(self).commands@.len() as int) =~= old(self).commands@);
            }
            let mut i: usize = 0;
            while i < recreate.len()
                invariant
                    self.wf(),
                    self.pmfx == old(self).pmfx,
                    self.sources == old(self).sources,
                    self.textures == old(self).textures,
                    self.window_sizes == old(self).window_sizes,
                    self.view_texture_refs == old(self).view_texture_refs,
                    self.active_render_graph == old(self).active_render_graph,
                    i <= recreate@.len(),
                    forall|t: Seq<char>| #[trigger] old(self).textures@.contains_key(t) && follows_window(old(self).textures@[t].ratio, name@) ==> names_of(recreate@).contains(t),
                    forall|v: Seq<char>| #[trigger] old(self).views@.contains_key(v) && !self.views@.contains_key(v) ==> rebuild@.len() > 0,
                    forall|j: int| 0 <= j < recreate@.len() ==> #[trigger] Self::resized(*old(self), recreate@[j]@, name@, size),
                    forall|v: Seq<char>| #[trigger] self.views@.contains_key(v) ==> old(self).views@.contains_key(v),
                    forall|j: int| 0 <= j < rebuild@.len() ==> Self::destroyed_by_resize(*old(self), #[trigger] rebuild@[j]@, name@, size),
                    Self::queued_resize(*old(self), name@, size, *self),
                    self.shaders == old(self).shaders,
                    self.render_pipelines == old(self).render_pipelines,
                    forall|v: Seq<char>| #[trigger] old(self).views@.contains_key(v) && !Self::destroyed_by_resize(*old(self), v, name@, size)
                        ==> self.views@.contains_key(v),
                    forall|k: int, v: Seq<char>| 0 <= k < i && old(self).view_texture_refs@.contains_key(#[trigger] recreate@[k]@)
                        && #[trigger] names_of(old(self).view_texture_refs@[recreate@[k]@]@).contains(v) ==> !self.views@.contains_key(v),
                decreases recreate@.len() - i,
            {
                let refs = self.get_view_texture_refs(recreate[i].as_str());
                let mut j: usize = 0;
                while j < refs.len()
                    invariant
                        self.wf(),
                        self.pmfx == old(self).pmfx,
                        self.sources == old(self).sources,
                        self.textures == old(self).textures,
                        self.window_sizes == old(self).window_sizes,
                        self.view_texture_refs == old(self).view_texture_refs,
                        self.active_render_graph == old(self).active_render_graph,
                        j <= refs@.len(),
                        i < recreate@.len(),
                        old(self).view_texture_refs@.contains_key(recreate@[i as int]@) ==> refs@ == old(self).view_texture_refs@[recreate@[i as int]@]@,
                        !old(self).view_texture_refs@.contains_key(recreate@[i as int]@) ==> refs@.len() == 0,
                        forall|v: Seq<char>| #[trigger] old(self).views@.contains_key(v) && !self.views@.contains_key(v) ==> rebuild@.len() > 0,
                        forall|j: int| 0 <= j < recreate@.len() ==> #[trigger] Self::resized(*old(self), recreate@[j]@, name@, size),
                        forall|v: Seq<char>| #[trigger] self.views@.contains_key(v) ==> old(self).views@.contains_key(v),
                        forall|j: int| 0 <= j < rebuild@.len() ==> Self::destroyed_by_resize(*old(self), #[trigger] rebuild@[j]@, name@, size),
                        Self::queued_resize(*old(self), name@, size, *self),
                        self.shaders == old(self).shaders,
                        self.render_pipelines == old(self).render_pipelines,
                        forall|v: Seq<char>| #[trigger] old(self).views@.contains_key(v) && !Self::destroyed_by_resize(*old(self), v, name@, size)
                            ==> self.views@.contains_key(v),
                        forall|k: int, v: Seq<char>| 0 <= k < i && old(self).view_texture_refs@.contains_key(#[trigger] recreate@[k]@)
                            && #[trigger] names_of(old(self).view_texture_refs@[recreate@[k]@]@).contains(v) ==> !self.views@.contains_key(v),
                        forall|jj: int| 0 <= jj < j ==> !self.views@.contains_key(#[trigger] refs@[jj]@),
                    decreases refs@.len() - j,
                {
                    if self.views.contains_key(&refs[j]) {
                        let ghost before = rebuild@;
                        let ghost cv = self.commands@;
                        let ghost vv = self.views@;
                        self.views.remove(&refs[j]);
                        self.commands.push(DeviceCommand::DestroyView { name: refs[j].clone() });
                        rebuild.push(refs[j].clone());
                        proof {
                            assert(self.commands@.take(cv.len() as int) =~= cv);
                            assert forall|x: int| 0 <= x < old(self).commands@.len() implies self.commands@[x] == old(self).commands@[x] by {
                                assert(cv.take(old(self).commands@.len() as int)[x] == old(self).commands@[x]);
                            }
                            assert(self.commands@.take(old(self).commands@.len() as int) =~= old(self).commands@);
                            let t = recreate@[i as int]@;
                            assert(Self::resized(*old(self), t, name@, size));
                            assert(names_of(refs@)[j as int] == refs@[j as int]@);
                            if !old(self).view_texture_refs@.contains_key(t) {
                                assert(refs@.len() == 0);
                            }
                            assert(Self::destroyed_by_resize(*old(self), refs@[j as int]@, name@, size));
                            assert forall|jj: int| 0 <= jj < rebuild@.len() implies Self::destroyed_by_resize(*old(self), #[trigger] rebuild@[jj]@, name@, size) by {
                                if jj < before.len() {
                                    assert(rebuild@[jj] == before[jj]);
                                }
                            }
                            assert forall|x: int| old(self).commands@.len() <= x < self.commands@.len() implies Self::resize_cmd(*old(self), name@, size, #[trigger] self.commands@[x]) by {
                                if x < cv.len() {
                                    assert(self.commands@[x] == cv[x]);
                                }
                            }
                            assert forall|v: Seq<char>| #[trigger] old(self).views@.contains_key(v) && !Self::destroyed_by_resize(*old(self), v, name@, size)
                                implies self.views@.contains_key(v) by {
                                assert(vv.contains_key(v));
                                assert(v != refs@[j as int]@);
                            }
                        }
                    }
                    j += 1;
                }
                proof {
                    assert forall|k: int, v: Seq<char>| 0 <= k < i + 1 && old(self).view_texture_refs@.contains_key(#[trigger] recreate@[k]@)
                        && #[trigger] names_of(old(self).view_texture_refs@[recreate@[k]@]@).contains(v) implies !self.views@.contains_key(v) by {
                        if k == i {
                            let jj = choose|jj: int| 0 <= jj < names_of(refs@).len() && names_of(refs@)[jj] == v;
                            assert(refs@[jj]@ == v);
                        }
                    }
                }
                i += 1;
            }
            proof {
                assert forall|t: Seq<char>, v: Seq<char>| #[trigger] Self::resized(*old(self), t, name@, size)
                    && old(self).view_texture_refs@.contains_key(t) && #[trigger] names_of(old(self).view_texture_refs@[t]@).contains(v)
                    implies !self.views@.contains_key(v) by {
                    assert(names_of(recreate@).contains(t));
                    let k = choose|k: int| 0 <= k < names_of(recreate@).len() && names_of(recreate@)[k] == t;
                    assert(recreate@[k]@ == t);
                }
            }
        }
        self.window_sizes.insert(wname, size);
        proof {
            assert forall|t: Seq<char>| #[trigger] old(self).textures@.contains_key(t) && !follows_window(old(self).textures@[t].ratio, name@)
                implies !names_of(recreate@).contains(t) by {
                if names_of(recreate@).contains(t) {
                    let j = choose|j: int| 0 <= j < names_of(recreate@).len() && names_of(recreate@)[j] == t;
                    assert(Self::resized(*old(self), recreate@[j]@, name@, size));
                }
            }
        }
        let ghost before_recreate = *self;
        let c = self.recreate_textures(&recreate);
        proof {
            assert(before_recreate.textures == old(self).textures);
            assert forall|x: int| 0 <= x < old(self).commands@.len() implies self.commands@[x] == old(self).commands@[x] by {
                assert(self.commands@.take(before_recreate.commands@.len() as int)[x] == before_recreate.commands@[x]);
                assert(before_recreate.commands@.take(old(self).commands@.len() as int)[x] == old(self).commands@[x]);
            }
            assert(self.commands@.take(old(self).commands@.len() as int) =~= old(self).commands@);
            assert forall|x: int| old(self).commands@.len() <= x < self.commands@.len() implies Self::resize_cmd(*old(self), name@, size, #[trigger] self.commands@[x]) by {
                if x < before_recreate.commands@.len() {
                    assert(self.commands@.take(before_recreate.commands@.len() as int)[x] == before_recreate.commands@[x]);
                } else {
                    assert(Self::texture_cmd_in(self.commands@[x], names_of(recreate@)));
                    match self.commands@[x] {
                        DeviceCommand::DestroyTexture { name: t } => {
                            let k = choose|k: int| 0 <= k < names_of(recreate@).len() && names_of(recreate@)[k] == t@;
                            assert(Self::resized(*old(self), recreate@[k]@, name@, size));
                        },
                        DeviceCommand::CreateTexture { name: t, .. } => {
                            let k = choose|k: int| 0 <= k < names_of(recreate@).len() && names_of(recreate@)[k] == t@;
                            assert(Self::resized(*old(self), recreate@[k]@, name@, size));
                        },
                        _ => {},
                    }
                }
            }
            if c is Ok {
                assert forall|t: Seq<char>| #[trigger] Self::resized(*old(self), t, name@, size) && old(self).pmfx.textures@.contains_key(t)
                    implies Self::replaced(self.commands@, old(self).commands@.len() as int, t) by {
                    assert(names_of(recreate@).contains(t));
                    let k = choose|k: int| 0 <= k < names_of(recreate@).len() && names_of(recreate@)[k] == t;
                    assert(recreate@[k]@ == t);
                }
            }
            assert forall|t: Seq<char>| #[trigger] old(self).textures@.contains_key(t) && !follows_window(old(self).textures@[t].ratio, name@)
                implies self.textures@.contains_key(t) && self.textures@[t] == old(self).textures@[t] by {
                assert(before_recreate.textures@.contains_key(t));
            }
        }
        if c.is_err() {
            proof {
                let j = choose|j: int| 0 <= j < recreate@.len() && old(self).pmfx.textures@.contains_key(#[trigger] recreate@[j]@)
                    && self.size_for(old(self).pmfx.textures@[recreate@[j]@]) is None;
                assert(Self::resized(*old(self), recreate@[j]@, name@, size));
            }
            return c;
        }
        if rebuild.len() > 0 {
            let active = self.active_render_graph.clone();
            let ghost mid = *self;
            proof {
                assert(Self::destroyed_by_resize(*old(self), rebuild@[0]@, name@, size));
            }
            let c = self.create_render_graph(active.as_str());
            proof {
                assert forall|t: Seq<char>| #[trigger] old(self).textures@.contains_key(t) && !Self::resized(*old(self), t, name@, size)
                    implies mid.textures@.contains_key(t) by {
                    if follows_window(old(self).textures@[t].ratio, name@) {
                    } else {
                        assert(before_recreate.textures@.contains_key(t));
                    }
                }
                Self::lemma_resize_from_new(*old(self), name@, size, mid, *self);
                Self::lemma_replaced_kept(mid.commands@, self.commands@, old(self).commands@.len() as int);
                assert forall|t: Seq<char>| #[trigger] Self::resized(*old(self), t, name@, size) && old(self).pmfx.textures@.contains_key(t)
                    implies self.textures@.contains_key(t) && Some(self.textures@[t].size) == self.size_for(self.pmfx.textures@[t]) by {
                    assert(mid.textures@.contains_key(t));
                }
            }
            if c.is_err() {
                return c;
            }
            proof {
                let g = old(self).pmfx.render_graphs@[old(self).active_render_graph@].entries();
                assert forall|t: Seq<char>, j: int|
                    #[trigger] Self::resized(*old(self), t, name@, size) && 0 <= j < g.len() && old(self).view_texture_refs@.contains_key(t)
                        && names_of(old(self).view_texture_refs@[t]@).contains(#[trigger] g[j].0@) && old(self).views@.contains_key(g[j].0@)
                        && old(self).pmfx.views@.contains_key(g[j].1.view@) && old(self).pmfx.render_graphs@.contains_key(old(self).active_render_graph@)
                    implies Self::view_fresh(*self, g[j].0@, old(self).pmfx.views@[g[j].1.view@]) by {
                    assert(!mid.views@.contains_key(g[j].0@));
                }
            }
        } else {
            proof {
                assert forall|t: Seq<char>, v: Seq<char>| #[trigger] Self::resized(*old(self), t, name@, size)
                    && old(self).view_texture_refs@.contains_key(t) && #[trigger] names_of(old(self).view_texture_refs@[t]@).contains(v)
                    implies !old(self).views@.contains_key(v) by {
                    if old(self).views@.contains_key(v) {
                        assert(!self.views@.contains_key(v));
                    }
                }
            }
        }
        Ok(())
    }

    /// Texture `t` is built in `a` and its declaration in `p` carries another hash.
    pub open spec fn texture_stale(a: Self, p: PmfxFile, t: Seq<char>) -> bool {
        a.textures@.contains_key(t) && p.textures@.contains_key(t) && p.textures@[t].hash != a.textures@[t].hash
    }

    /// Shader `k` is built in `a` and its declaration in `p` carries another hash.
    pub open spec fn shader_stale(a: Self, p: PmfxFile, k: Seq<char>) -> bool {
        a.shaders@.contains_key(k) && p.shaders@.contains_key(k) && p.shaders@[k] != a.shaders@[k]
    }

    /// View `v` is built in `a`, and its declaration in `p` carries another hash or it
    /// renders to a stale texture.
    pub open spec fn view_stale(a: Self, p: PmfxFile, v: Seq<char>) -> bool {
        &&& a.views@.contains_key(v)
        &&& p.views@.contains_key(a.views@[v].pmfx_view_name@)
        &&& (p.views@[a.views@[v].pmfx_view_name@].hash != a.views@[v].hash || Self::affected_by_stale(a, p, v))
    }

    /// View `v` is built in `a` and its declaration in `p` carries another hash.
    pub open spec fn view_hash_stale(a: Self, p: PmfxFile, v: Seq<char>) -> bool {
        &&& a.views@.contains_key(v)
        &&& p.views@.contains_key(a.views@[v].pmfx_view_name@)
        &&& p.views@[a.views@[v].pmfx_view_name@].hash != a.views@[v].hash
    }

    /// View `v` renders to a texture that is stale.
    pub open spec fn affected_by_stale(a: Self, p: PmfxFile, v: Seq<char>) -> bool {
        exists|t: Seq<char>|
            #[trigger] Self::texture_stale(a, p, t) && a.view_texture_refs@.contains_key(t) && names_of(
                a.view_texture_refs@[t]@,
            ).contains(v)
    }

    /// Pipeline `n` is built in `a` for format `f`, and one of its permutations is declared
    /// in `p` with another hash.
    pub open spec fn pipeline_stale(a: Self, p: PmfxFile, f: int, n: Seq<char>) -> bool {
        &&& 0 <= f < a.render_pipelines@.len()
        &&& a.render_pipelines@[f]@.contains_key(n)
        &&& p.pipelines@.contains_key(n)
        &&& exists|i: int, j: int|
            0 <= i < a.render_pipelines@[f]@[n]@.len() && 0 <= j < p.pipelines@[n]@.len()
                && #[trigger] a.render_pipelines@[f]@[n]@[i].0 == #[trigger] p.pipelines@[n]@[j].0
                && a.render_pipelines@[f]@[n]@[i].1 != p.pipelines@[n]@[j].1.hash
    }


    /// Permutation entry `e` of pipeline `n` is declared in `p` with the same mask and
    /// another hash.
    pub open spec fn entry_stale(p: PmfxFile, n: Seq<char>, e: (u32, PmfxHash)) -> bool {
        p.pipelines@.contains_key(n) && exists|j: int|
            0 <= j < p.pipelines@[n]@.len() && #[trigger] p.pipelines@[n]@[j].0 == e.0 && p.pipelines@[n]@[j].1.hash != e.1
    }

    /// `x` is the mask and hash of a declared render permutation of pipeline `n`.
    pub open spec fn declared_render(p: PmfxFile, n: Seq<char>, x: (u32, PmfxHash)) -> bool {
        p.pipelines@.contains_key(n) && exists|j: int|
            0 <= j < p.pipelines@[n]@.len() && #[trigger] p.pipelines@[n]@[j].0 == x.0 && p.pipelines@[n]@[j].1.hash == x.1
                && p.pipelines@[n]@[j].1.cs is None
    }

    /// Pipeline `n` declares a render permutation with mask `m`.
    pub open spec fn has_render_decl(p: PmfxFile, n: Seq<char>, m: u32) -> bool {
        p.pipelines@.contains_key(n) && exists|j: int|
            0 <= j < p.pipelines@[n]@.len() && #[trigger] p.pipelines@[n]@[j].0 == m && p.pipelines@[n]@[j].1.cs is None
    }

    /// Some built view of `a` has pass format `f`.
    pub open spec fn live(a: Self, f: int) -> bool {
        exists|v: Seq<char>| #[trigger] a.views@.contains_key(v) && a.views@[v].format == f
    }

    /// Permutation `m` of render pipeline `n` built in `a` for format `f` is stale under
    /// `a`'s declarations.
    pub open spec fn mask_stale(a: Self, f: int, n: Seq<char>, m: u32) -> bool {
        exists|i: int|
            0 <= i < a.render_pipelines@[f]@[n]@.len() && #[trigger] a.render_pipelines@[f]@[n]@[i].0 == m
                && Self::entry_stale(a.pmfx, n, a.render_pipelines@[f]@[n]@[i])
    }

    /// A command that rebuilding pipeline `n` for format `f` from `a` may queue.
    pub open spec fn rebuild_cmd(a: Self, f: int, n: Seq<char>, c: DeviceCommand) -> bool {
        match c {
            DeviceCommand::DestroyRenderPipeline { format, name, permutation } => format == f && name@ == n
                && Self::mask_stale(a, f, n, permutation),
            DeviceCommand::CreateRenderPipeline { format, name, permutation, .. } => format == f && name@ == n
                && Self::mask_stale(a, f, n, permutation),
            DeviceCommand::CreateShader { file, .. } => !a.shaders@.contains_key(file@),
            _ => false,
        }
    }

    /// Whether some built view has pass format `f`.
    fn format_in_use(&self, f: usize) -> (r: bool)
        requires
            self.wf(),
        ensures
            r == Self::live(*self, f as int),
    {
        let mut i: usize = 0;
        while i < self.views.len()
            invariant
                self.wf(),
                i <= self.views.entries().len(),
                forall|j: int| 0 <= j < i ==> (#[trigger] self.views.entries()[j]).1.format != f,
            decreases self.views.entries().len() - i,
        {
            proof {
                self.views.lemma_entry(i as int);
            }
            if self.views.value_at(i).format == f {
                return true;
            }
            i += 1;
        }
        proof {
            if Self::live(*self, f as int) {
                let v = choose|v: Seq<char>| #[trigger] self.views@.contains_key(v) && self.views@[v].format == f;
                let j = choose|j: int| 0 <= j < self.views.entries().len() && #[trigger] self.views.entries()[j].0@ == v;
                self.views.lemma_entry(j);
            }
        }
        false
    }

    /// Rebuilds the stale permutations of render pipeline `name` built for format `f`:
    /// each is destroyed and, when a built view has format `f` and the pipeline declares a
    /// render permutation with its mask, built again from that declaration. Permutations
    /// whose hash is unchanged are kept as they are.
    fn rebuild_pipeline(&mut self, f: usize, name: &String) -> (r: Result<(), PmfxError>)
        requires
            old(self).wf(),
            f < old(self).render_pipelines@.len(),
            old(self).render_pipelines@[f as int]@.contains_key(name@),
        ensures
            final(self).wf(),
            final(self).pmfx == old(self).pmfx,
            final(self).textures == old(self).textures,
            final(self).views == old(self).views,
            final(self).compiled == old(self).compiled,
            final(self).sources == old(self).sources,
            final(self).active_render_graph == old(self).active_render_graph,
            final(self).window_sizes == old(self).window_sizes,
            final(self).formats == old(self).formats,
            final(self).view_texture_refs == old(self).view_texture_refs,
            final(self).render_pipelines@.len() == old(self).render_pipelines@.len(),
            forall|j: int| 0 <= j < old(self).render_pipelines@.len() && j != f ==> #[trigger] final(self).render_pipelines@[j]
                == old(self).render_pipelines@[j],
            forall|k: Seq<char>| #[trigger] old(self).render_pipelines@[f as int]@.contains_key(k) ==> final(self).render_pipelines@[f as int]@.contains_key(k),
            forall|k: Seq<char>| #[trigger] final(self).render_pipelines@[f as int]@.contains_key(k) ==> old(self).render_pipelines@[f as int]@.contains_key(k),
            forall|k: Seq<char>| k != name@ && #[trigger] old(self).render_pipelines@[f as int]@.contains_key(k)
                ==> final(self).render_pipelines@[f as int]@[k] == old(self).render_pipelines@[f as int]@[k],
            forall|e: (u32, PmfxHash)| #[trigger] old(self).render_pipelines@[f as int]@[name@]@.contains(e)
                && !Self::entry_stale(old(self).pmfx, name@, e) ==> final(self).render_pipelines@[f as int]@[name@]@.contains(e),
            r is Ok ==> forall|x: (u32, PmfxHash)| #[trigger] final(self).render_pipelines@[f as int]@[name@]@.contains(x) ==> (
                old(self).render_pipelines@[f as int]@[name@]@.contains(x) && !Self::entry_stale(old(self).pmfx, name@, x))
                || (Self::declared_render(old(self).pmfx, name@, x) && Self::mask_stale(*old(self), f as int, name@, x.0)),
            r is Ok ==> forall|m: u32| #[trigger] Self::mask_stale(*old(self), f as int, name@, m) && Self::live(*old(self), f as int)
                && Self::has_render_decl(old(self).pmfx, name@, m) ==> exists|x: (u32, PmfxHash)|
                #[trigger] final(self).render_pipelines@[f as int]@[name@]@.contains(x) && x.0 == m,
            forall|k: Seq<char>| #[trigger] old(self).shaders@.contains_key(k) ==> final(self).shaders@.contains_key(k)
                && final(self).shaders@[k] == old(self).shaders@[k],
            forall|k: Seq<char>| #[trigger] final(self).shaders@.contains_key(k) && !old(self).shaders@.contains_key(k)
                ==> old(self).pmfx.shaders@.contains_key(k) && final(self).shaders@[k] == old(self).pmfx.shaders@[k],
            old(self).commands@.len() <= final(self).commands@.len(),
            final(self).commands@.take(old(self).commands@.len() as int) == old(self).commands@,
            forall|x: int| old(self).commands@.len() <= x < final(self).commands@.len() ==> Self::rebuild_cmd(
                *old(self),
                f as int,
                name@,
                #[trigger] final(self).commands@[x],
            ),
    {
        let ghost s0 = *self;
        let ghost list0 = s0.render_pipelines@[f as int]@[name@]@;
        let live = self.format_in_use(f);
        let folder = match self.pmfx_folders.get(name) {
            Some(x) => x.clone(),
            None => String::new(),
        };
        let old_list = {
            let l = self.render_pipelines[f].get(name).unwrap();
            let mut c: Vec<(u32, PmfxHash)> = Vec::new();
            let mut i: usize = 0;
            while i < l.len()
                invariant
                    i <= l@.len(),
                    c@ == l@.take(i as int),
                decreases l@.len() - i,
            {
                c.push(l[i]);
                assert(c@ =~= l@.take(i + 1));
                i += 1;
            }
            assert(l@.take(l@.len() as int) =~= l@);
            c
        };
        assert(old_list@ == list0);
        let mut new_list: Vec<(u32, PmfxHash)> = Vec::new();
        let mut a: usize = 0;
        assert(self.commands@.take(s0.commands@.len() as int) =~= s0.commands@);
        while a < old_list.len()
            invariant
                self.wf(),
                s0.wf(),
                s0 == *old(self),
                a <= old_list@.len(),
                old_list@ == list0,
                list0 == s0.render_pipelines@[f as int]@[name@]@,
                f < s0.render_pipelines@.len(),
                s0.render_pipelines@[f as int]@.contains_key(name@),
                live == Self::live(s0, f as int),
                self.pmfx == s0.pmfx,
                self.textures == s0.textures,
                self.views == s0.views,
                self.compiled == s0.compiled,
                self.sources == s0.sources,
                self.active_render_graph == s0.active_render_graph,
                self.window_sizes == s0.window_sizes,
                self.formats == s0.formats,
                self.view_texture_refs == s0.view_texture_refs,
                self.render_pipelines == s0.render_pipelines,
                forall|k: Seq<char>| #[trigger] s0.shaders@.contains_key(k) ==> self.shaders@.contains_key(k)
                    && self.shaders@[k] == s0.shaders@[k],
                forall|k: Seq<char>| #[trigger] self.shaders@.contains_key(k) && !s0.shaders@.contains_key(k)
                    ==> s0.pmfx.shaders@.contains_key(k) && self.shaders@[k] == s0.pmfx.shaders@[k],
                s0.commands@.len() <= self.commands@.len(),
                self.commands@.take(s0.commands@.len() as int) == s0.commands@,
                forall|x: int| s0.commands@.len() <= x < self.commands@.len() ==> Self::rebuild_cmd(
                    s0, f as int, name@, #[trigger] self.commands@[x]),
                forall|i: int| 0 <= i < a && !Self::entry_stale(s0.pmfx, name@, #[trigger] list0[i]) ==> new_list@.contains(list0[i]),
                forall|x: (u32, PmfxHash)| #[trigger] new_list@.contains(x) ==> (list0.contains(x) && !Self::entry_stale(s0.pmfx, name@, x))
                    || (Self::declared_render(s0.pmfx, name@, x) && Self::mask_stale(s0, f as int, name@, x.0)),
                forall|i: int| 0 <= i < a && Self::entry_stale(s0.pmfx, name@, #[trigger] list0[i]) && live
                    && Self::has_render_decl(s0.pmfx, name@, list0[i].0) ==> exists|x: (u32, PmfxHash)|
                    #[trigger] new_list@.contains(x) && x.0 == list0[i].0,
            decreases old_list@.len() - a,
        {
            let e = old_list[a];
            let ghost nl0 = new_list@;
            let ghost c0 = self.commands@;
            let decl_opt = self.pmfx.pipelines.get(name);
            let mut stale = false;
            let mut render_index: Option<usize> = None;
            if let Some(decl) = decl_opt {
                let mut b: usize = 0;
                while b < decl.len()
                    invariant
                        b <= decl@.len(),
                        s0.pmfx.pipelines@.contains_key(name@),
                        *decl == s0.pmfx.pipelines@[name@],
                        stale ==> Self::entry_stale(s0.pmfx, name@, e),
                        !stale ==> forall|j: int| 0 <= j < b && #[trigger] decl@[j].0 == e.0 ==> decl@[j].1.hash == e.1,
                        render_index matches Some(j) ==> j < decl@.len() && decl@[j as int].0 == e.0 && decl@[j as int].1.cs is None,
                        render_index is None ==> forall|j: int| 0 <= j < b && #[trigger] decl@[j].0 == e.0 ==> decl@[j].1.cs is Some,
                    decreases decl@.len() - b,
                {
                    if decl[b].0 == e.0 {
                        if decl[b].1.hash != e.1 {
                            stale = true;
                        }
                        if render_index.is_none() && decl[b].1.cs.is_none() {
                            render_index = Some(b);
                        }
                    }
                    b += 1;
                }
            }
            proof {
                assert(list0[a as int] == e);
                if !stale && s0.pmfx.pipelines@.contains_key(name@) {
                    assert(!Self::entry_stale(s0.pmfx, name@, e));
                }
                if render_index is None && s0.pmfx.pipelines@.contains_key(name@) {
                    assert(!Self::has_render_decl(s0.pmfx, name@, e.0));
                }
            }
            if !stale {
                new_list.push(e);
                proof {
                    assert(new_list@[nl0.len() as int] == e);
                    assert forall|x: (u32, PmfxHash)| #[trigger] new_list@.contains(x) implies (list0.contains(x) && !Self::entry_stale(s0.pmfx, name@, x))
                        || (Self::declared_render(s0.pmfx, name@, x) && Self::mask_stale(s0, f as int, name@, x.0)) by {
                        let k = choose|k: int| 0 <= k < new_list@.len() && new_list@[k] == x;
                        if k < nl0.len() {
                            assert(nl0[k] == x);
                            assert(nl0.contains(x));
                        } else {
                            assert(list0[a as int] == x);
                        }
                    }
                }
            } else {
                proof {
                    assert(Self::mask_stale(s0, f as int, name@, e.0));
                }
                self.commands.push(DeviceCommand::DestroyRenderPipeline { format: f, name: name.clone(), permutation: e.0 });
                proof {
                    assert(self.commands@.take(s0.commands@.len() as int) =~= s0.commands@);
                }
                if live {
                    if let Some(j) = render_index {
                        let decl = self.pmfx.pipelines.get(name).unwrap();
                        let p = &decl[j].1;
                        let vs = match &p.vs { Some(x) => Some(x.clone()), None => None };
                        let ps = match &p.ps { Some(x) => Some(x.clone()), None => None };
                        let hash = p.hash;
                        let raster_state = resolve_state(&p.raster_state, &self.pmfx.raster_states);
                        let depth_stencil_state = resolve_state(&p.depth_stencil_state, &self.pmfx.depth_stencil_states);
                        let topology = resolve_topology(&p.topology);
                        let ghost pre1 = *self;
                        let c = self.create_shader(&folder, &vs);
                        proof {
                            Self::lemma_rebuild_cmds(s0, pre1, *self, f as int, name@);
                        }
                        if c.is_err() {
                            return c;
                        }
                        let ghost pre2 = *self;
                        proof {
                            assert forall|k: Seq<char>| #[trigger] s0.shaders@.contains_key(k) implies self.shaders@.contains_key(k) by {
                                assert(pre1.shaders@.contains_key(k));
                            }
                        }
                        let c = self.create_shader(&folder, &ps);
                        proof {
                            Self::lemma_rebuild_cmds(s0, pre2, *self, f as int, name@);
                        }
                        if c.is_err() {
                            return c;
                        }
                        let ghost c2 = self.commands@;
                        self.commands.push(DeviceCommand::CreateRenderPipeline {
                            format: f,
                            name: name.clone(),
                            permutation: e.0,
                            raster_state,
                            depth_stencil_state,
                            topology,
                        });
                        new_list.push((e.0, hash));
                        proof {
                            assert(self.commands@.take(c2.len() as int) =~= c2);
                            assert forall|x: int| 0 <= x < s0.commands@.len() implies self.commands@[x] == s0.commands@[x] by {
                                assert(c2.take(s0.commands@.len() as int)[x] == s0.commands@[x]);
                            }
                            assert(self.commands@.take(s0.commands@.len() as int) =~= s0.commands@);
                            assert forall|x: int| s0.commands@.len() <= x < self.commands@.len() implies Self::rebuild_cmd(
                                s0, f as int, name@, #[trigger] self.commands@[x]) by {
                                if x < c2.len() {
                                    assert(self.commands@[x] == c2[x]);
                                }
                            }
                            assert(Self::declared_render(s0.pmfx, name@, (e.0, hash)));
                            assert(new_list@[nl0.len() as int] == (e.0, hash));
                            assert forall|x: (u32, PmfxHash)| #[trigger] new_list@.contains(x) implies (list0.contains(x) && !Self::entry_stale(s0.pmfx, name@, x))
                                || (Self::declared_render(s0.pmfx, name@, x) && Self::mask_stale(s0, f as int, name@, x.0)) by {
                                let k = choose|k: int| 0 <= k < new_list@.len() && new_list@[k] == x;
                                if k < nl0.len() {
                                    assert(nl0[k] == x);
                                    assert(nl0.contains(x));
                                }
                            }
                        }
                    }
                }
            }
            proof {
                assert forall|i: int| 0 <= i < a + 1 && !Self::entry_stale(s0.pmfx, name@, #[trigger] list0[i]) implies new_list@.contains(list0[i]) by {
                    if i < a {
                        let k = choose|k: int| 0 <= k < nl0.len() && nl0[k] == list0[i];
                        assert(new_list@[k] == nl0[k]);
                    } else {
                        assert(new_list@[nl0.len() as int] == e);
                    }
                }
                assert forall|i: int| 0 <= i < a + 1 && Self::entry_stale(s0.pmfx, name@, #[trigger] list0[i]) && live
                    && Self::has_render_decl(s0.pmfx, name@, list0[i].0) implies exists|x: (u32, PmfxHash)|
                    #[trigger] new_list@.contains(x) && x.0 == list0[i].0 by {
                    if i < a {
                        let x = choose|x: (u32, PmfxHash)| #[trigger] nl0.contains(x) && x.0 == list0[i].0;
                        let k = choose|k: int| 0 <= k < nl0.len() && nl0[k] == x;
                        assert(new_list@[k] == nl0[k]);
                        assert(new_list@.contains(x));
                    } else {
                        assert(new_list@[nl0.len() as int].0 == e.0);
                        assert(new_list@.contains(new_list@[nl0.len() as int]));
                    }
                }
            }
            a += 1;
        }
        let ghost before_insert = *self;
        let mut table = self.render_pipelines.remove(f);
        let ghost t0 = table@;
        table.insert(name.clone(), new_list);
        self.render_pipelines.insert(f, table);
        proof {
            assert(self.render_pipelines@ =~= before_insert.render_pipelines@.update(f as int, table));
            assert(table@ == t0.insert(name@, new_list));
            assert forall|j: int| 0 <= j < self.render_pipelines@.len() implies #[trigger] self.render_pipelines@[j].wf() by {
                if j != f {
                    assert(self.render_pipelines@[j] == before_insert.render_pipelines@[j]);
                }
            }
            assert forall|e: (u32, PmfxHash)| #[trigger] list0.contains(e) && !Self::entry_stale(s0.pmfx, name@, e)
                implies new_list@.contains(e) by {
                let i = choose|i: int| 0 <= i < list0.len() && list0[i] == e;
                assert(!Self::entry_stale(s0.pmfx, name@, list0[i]));
            }
            assert(self.render_pipelines@[f as int]@[name@] == new_list);
            assert forall|m: u32| #[trigger] Self::mask_stale(s0, f as int, name@, m) && Self::live(s0, f as int)
                && Self::has_render_decl(s0.pmfx, name@, m) implies exists|x: (u32, PmfxHash)|
                #[trigger] self.render_pipelines@[f as int]@[name@]@.contains(x) && x.0 == m by {
                let i = choose|i: int| 0 <= i < list0.len() && #[trigger] list0[i].0 == m && Self::entry_stale(s0.pmfx, name@, list0[i]);
                assert(Self::entry_stale(s0.pmfx, name@, list0[i]));
                let x = choose|x: (u32, PmfxHash)| #[trigger] new_list@.contains(x) && x.0 == list0[i].0;
                assert(self.render_pipelines@[f as int]@[name@]@.contains(x));
            }
        }
        Ok(())
    }

    /// Commands queued by creating a shader during a rebuild are rebuild commands.
    proof fn lemma_rebuild_cmds(s0: Self, pre: Self, post: Self, f: int, n: Seq<char>)
        requires
            s0.commands@.len() <= pre.commands@.len(),
            pre.commands@.take(s0.commands@.len() as int) == s0.commands@,
            forall|x: int| s0.commands@.len() <= x < pre.commands@.len() ==> Self::rebuild_cmd(s0, f, n, #[trigger] pre.commands@[x]),
            Self::queued_new(pre, post),
            forall|k: Seq<char>| #[trigger] s0.shaders@.contains_key(k) ==> pre.shaders@.contains_key(k),
            post.commands@.len() >= pre.commands@.len(),
            forall|x: int| pre.commands@.len() <= x < post.commands@.len() ==> (#[trigger] post.commands@[x]) is CreateShader,
        ensures
            s0.commands@.len() <= post.commands@.len(),
            post.commands@.take(s0.commands@.len() as int) == s0.commands@,
            forall|x: int| s0.commands@.len() <= x < post.commands@.len() ==> Self::rebuild_cmd(s0, f, n, #[trigger] post.commands@[x]),
    {
        assert forall|x: int| 0 <= x < s0.commands@.len() implies post.commands@[x] == s0.commands@[x] by {
            assert(post.commands@.take(pre.commands@.len() as int)[x] == pre.commands@[x]);
            assert(pre.commands@.take(s0.commands@.len() as int)[x] == s0.commands@[x]);
        }
        assert(post.commands@.take(s0.commands@.len() as int) =~= s0.commands@);
        assert forall|x: int| s0.commands@.len() <= x < post.commands@.len() implies Self::rebuild_cmd(s0, f, n, #[trigger] post.commands@[x]) by {
            if x < pre.commands@.len() {
                assert(post.commands@.take(pre.commands@.len() as int)[x] == pre.commands@[x]);
            } else {
                assert(Self::creates_new(pre, post.commands@[x]));
                assert(post.commands@[x] is CreateShader);
                match post.commands@[x] {
                    DeviceCommand::CreateShader { file, .. } => {
                        if s0.shaders@.contains_key(file@) {
                            assert(pre.shaders@.contains_key(file@));
                        }
                    },
                    _ => {},
                }
            }
        }
    }

    /// Permutation `m` of render pipeline `n` built in `a` for format `f` is declared in
    /// `p` with another hash.
    pub open spec fn perm_stale(a: Self, p: PmfxFile, f: int, n: Seq<char>, m: u32) -> bool {
        &&& 0 <= f < a.render_pipelines@.len()
        &&& a.render_pipelines@[f]@.contains_key(n)
        &&& exists|i: int|
            0 <= i < a.render_pipelines@[f]@[n]@.len() && #[trigger] a.render_pipelines@[f]@[n]@[i].0 == m
                && Self::entry_stale(p, n, a.render_pipelines@[f]@[n]@[i])
    }

    /// Command `c` names an object that `p` makes stale in `a`, or one `a` has not built.
    pub open spec fn names_changed(a: Self, p: PmfxFile, c: DeviceCommand) -> bool {
        match c {
            DeviceCommand::CreateTexture { name, .. } => Self::texture_stale(a, p, name@) || !a.textures@.contains_key(name@),
            DeviceCommand::DestroyTexture { name } => Self::texture_stale(a, p, name@) || !a.textures@.contains_key(name@),
            DeviceCommand::CreateView { name } => Self::view_stale(a, p, name@) || !a.views@.contains_key(name@),
            DeviceCommand::DestroyView { name } => Self::view_stale(a, p, name@) || !a.views@.contains_key(name@),
            DeviceCommand::CreateShader { file, .. } => Self::shader_stale(a, p, file@) || !a.shaders@.contains_key(file@),
            DeviceCommand::DestroyShader { file } => Self::shader_stale(a, p, file@) || !a.shaders@.contains_key(file@),
            DeviceCommand::CreateRenderPipeline { format, name, permutation, .. } => Self::perm_stale(
                a,
                p,
                format as int,
                name@,
                permutation,
            ) || !Self::has_permutation(a, format as int, name@, permutation),
            DeviceCommand::DestroyRenderPipeline { format, name, permutation } => Self::perm_stale(
                a,
                p,
                format as int,
                name@,
                permutation,
            ) || !Self::has_permutation(a, format as int, name@, permutation),
            _ => true,
        }
    }

    /// Every command `b` queued after `a`'s names an object that `p` makes stale in `a`, or
    /// one `a` had not built.
    pub open spec fn queued_changed(a: Self, p: PmfxFile, b: Self) -> bool {
        &&& a.commands@.len() <= b.commands@.len()
        &&& b.commands@.take(a.commands@.len() as int) == a.commands@
        &&& forall|x: int| a.commands@.len() <= x < b.commands@.len() ==> Self::names_changed(a, p, #[trigger] b.commands@[x])
    }


    /// Work queued for new objects only, after the stale ones were dropped, names changed
    /// or new objects.
    proof fn lemma_changed_from_new(o: Self, p: PmfxFile, mid: Self, post: Self)
        requires
            Self::queued_changed(o, p, mid),
            Self::queued_new(mid, post),
            forall|t: Seq<char>| #[trigger] o.textures@.contains_key(t) && !Self::texture_stale(o, p, t) ==> mid.textures@.contains_key(t),
            forall|v: Seq<char>| #[trigger] o.views@.contains_key(v) && !Self::view_stale(o, p, v) ==> mid.views@.contains_key(v),
            forall|k: Seq<char>| #[trigger] o.shaders@.contains_key(k) && !Self::shader_stale(o, p, k) ==> mid.shaders@.contains_key(k),
            mid.render_pipelines == o.render_pipelines,
        ensures
            Self::queued_changed(o, p, post),
    {
        assert forall|x: int| 0 <= x < o.commands@.len() implies post.commands@[x] == o.commands@[x] by {
            assert(post.commands@.take(mid.commands@.len() as int)[x] == mid.commands@[x]);
            assert(mid.commands@.take(o.commands@.len() as int)[x] == o.commands@[x]);
        }
        assert(post.commands@.take(o.commands@.len() as int) =~= o.commands@);
        assert forall|x: int| o.commands@.len() <= x < post.commands@.len() implies Self::names_changed(o, p, #[trigger] post.commands@[x]) by {
            if x < mid.commands@.len() {
                assert(post.commands@.take(mid.commands@.len() as int)[x] == mid.commands@[x]);
            } else {
                assert(Self::creates_new(mid, post.commands@[x]));
                match post.commands@[x] {
                    DeviceCommand::CreateRenderPipeline { format, name, permutation, .. } => {
                        if Self::has_permutation(o, format as int, name@, permutation) {
                            assert(Self::has_permutation(mid, format as int, name@, permutation));
                        }
                    },
                    _ => {},
                }
            }
        }
    }

    /// Rebuild work on a pipeline whose list is still the one first built names changed
    /// or new objects.
    proof fn lemma_changed_from_rebuild(o: Self, p: PmfxFile, pre: Self, post: Self, f: int, n: Seq<char>)
        requires
            Self::queued_changed(o, p, pre),
            pre.commands@.len() <= post.commands@.len(),
            post.commands@.take(pre.commands@.len() as int) == pre.commands@,
            forall|x: int| pre.commands@.len() <= x < post.commands@.len() ==> Self::rebuild_cmd(pre, f, n, #[trigger] post.commands@[x]),
            pre.pmfx == p,
            0 <= f < o.render_pipelines@.len(),
            o.render_pipelines@[f]@.contains_key(n),
            f < pre.render_pipelines@.len(),
            pre.render_pipelines@[f]@.contains_key(n),
            pre.render_pipelines@[f]@[n] == o.render_pipelines@[f]@[n],
            forall|k: Seq<char>| #[trigger] o.shaders@.contains_key(k) && !Self::shader_stale(o, p, k) ==> pre.shaders@.contains_key(k),
        ensures
            Self::queued_changed(o, p, post),
    {
        assert forall|x: int| 0 <= x < o.commands@.len() implies post.commands@[x] == o.commands@[x] by {
            assert(post.commands@.take(pre.commands@.len() as int)[x] == pre.commands@[x]);
            assert(pre.commands@.take(o.commands@.len() as int)[x] == o.commands@[x]);
        }
        assert(post.commands@.take(o.commands@.len() as int) =~= o.commands@);
        assert forall|x: int| o.commands@.len() <= x < post.commands@.len() implies Self::names_changed(o, p, #[trigger] post.commands@[x]) by {
            if x < pre.commands@.len() {
                assert(post.commands@.take(pre.commands@.len() as int)[x] == pre.commands@[x]);
                assert(post.commands@.take(pre.commands@.len() as int)[x] == post.commands@[x]);
                assert(Self::names_changed(o, p, pre.commands@[x]));
            } else {
                let c = post.commands@[x];
                assert(Self::rebuild_cmd(pre, f, n, c));
                match c {
                    DeviceCommand::DestroyRenderPipeline { format, name, permutation } => {
                        assert(Self::mask_stale(pre, f, n, permutation));
                        let i = choose|i: int| 0 <= i < pre.render_pipelines@[f]@[n]@.len() && #[trigger] pre.render_pipelines@[f]@[n]@[i].0 == permutation
                            && Self::entry_stale(pre.pmfx, n, pre.render_pipelines@[f]@[n]@[i]);
                        assert(o.render_pipelines@[f]@[n]@[i].0 == permutation);
                        assert(Self::perm_stale(o, p, f, n, permutation));
                        assert(format as int == f && name@ == n);
                    },
                    DeviceCommand::CreateRenderPipeline { format, name, permutation, .. } => {
                        assert(Self::mask_stale(pre, f, n, permutation));
                        let i = choose|i: int| 0 <= i < pre.render_pipelines@[f]@[n]@.len() && #[trigger] pre.render_pipelines@[f]@[n]@[i].0 == permutation
                            && Self::entry_stale(pre.pmfx, n, pre.render_pipelines@[f]@[n]@[i]);
                        assert(o.render_pipelines@[f]@[n]@[i].0 == permutation);
                        assert(Self::perm_stale(o, p, f, n, permutation));
                        assert(format as int == f && name@ == n);
                    },
                    DeviceCommand::CreateShader { file, .. } => {
                        assert(!pre.shaders@.contains_key(file@));
                        if o.shaders@.contains_key(file@) && !Self::shader_stale(o, p, file@) {
                            assert(pre.shaders@.contains_key(file@));
                        }
                    },
                    _ => {
                        assert(false);
                    },
                }
            }
        }
    }


    /// A destroy-then-create pair stays in a queue that only grows.
    proof fn lemma_replaced_kept(c1: Seq<DeviceCommand>, c2: Seq<DeviceCommand>, from: int)
        requires
            0 <= from,
            c1.len() <= c2.len(),
            c2.take(c1.len() as int) == c1,
        ensures
            forall|t: Seq<char>| #[trigger] Self::replaced(c1, from, t) ==> Self::replaced(c2, from, t),
    {
        assert forall|t: Seq<char>| #[trigger] Self::replaced(c1, from, t) implies Self::replaced(c2, from, t) by {
            let x = choose|x: int|
                from <= x && x + 1 < c1.len() && (#[trigger] c1[x] matches DeviceCommand::DestroyTexture { name } && name@ == t)
                    && (c1[x + 1] matches DeviceCommand::CreateTexture { name: n2, .. } && n2@ == t);
            assert(c2.take(c1.len() as int)[x] == c1[x]);
            assert(c2.take(c1.len() as int)[x + 1] == c1[x + 1]);
            assert(c2.take(c1.len() as int)[x] == c2[x]);
            assert(c2.take(c1.len() as int)[x + 1] == c2[x + 1]);
        }
    }


    /// `listed` on one more element of a sequence of pairs.
    proof fn lemma_listed_take(r: Seq<(usize, String)>, i: int, f: int, n: Seq<char>)
        requires
            0 <= i < r.len(),
        ensures
            Self::listed(r.take(i + 1), f, n) == (Self::listed(r.take(i), f, n) || (r[i].0 == f && r[i].1@ == n)),
    {
        if Self::listed(r.take(i + 1), f, n) {
            let j = choose|j: int| 0 <= j < r.take(i + 1).len() && (#[trigger] r.take(i + 1)[j]).0 == f && r.take(i + 1)[j].1@ == n;
            if j < i {
                assert(r.take(i)[j] == r[j]);
            }
        }
        if Self::listed(r.take(i), f, n) {
            let j = choose|j: int| 0 <= j < r.take(i).len() && (#[trigger] r.take(i)[j]).0 == f && r.take(i)[j].1@ == n;
            assert(r.take(i + 1)[j] == r[j]);
        }
        if r[i].0 == f && r[i].1@ == n {
            assert(r.take(i + 1)[i] == r[i]);
        }
    }

    /// One rebuilt pipeline keeps the reload's facts about the pairs processed so far.
    #[verifier::rlimit(60)]
    proof fn lemma_pairs_step(
        o: Self,
        p: PmfxFile,
        pre: Self,
        post: Self,
        r: Seq<(usize, String)>,
        i: int,
        f: int,
        name: Seq<char>,
        ok: bool,
    )
        requires
            0 <= i < r.len(),
            r[i].0 == f && r[i].1@ == name,
            pre.pmfx == p,
            post.views == pre.views,
            o.render_pipelines@.len() == o.formats@.len(),
            forall|j: int| 0 <= j < r.len() ==> (#[trigger] r[j]).0 < pre.render_pipelines@.len(),
            forall|j: int, k: int| 0 <= j < k < r.len() ==> !((#[trigger] r[j]).0 == (#[trigger] r[k]).0 && r[j].1@ == r[k].1@),
            forall|j: int| i <= j < r.len() ==> pre.render_pipelines@[(#[trigger] r[j]).0 as int]@.contains_key(r[j].1@)
                && pre.render_pipelines@[r[j].0 as int]@[r[j].1@] == o.render_pipelines@[r[j].0 as int]@[r[j].1@],
            o.render_pipelines@.len() <= pre.render_pipelines@.len(),
            forall|ff: int, n: Seq<char>| 0 <= ff < o.formats@.len() && #[trigger] o.render_pipelines@[ff]@.contains_key(n)
                ==> pre.render_pipelines@[ff]@.contains_key(n),
            forall|ff: int, n: Seq<char>, e: (u32, PmfxHash)|
                0 <= ff < o.formats@.len() && o.render_pipelines@[ff]@.contains_key(n)
                    && #[trigger] o.render_pipelines@[ff]@[n]@.contains(e) && !Self::entry_stale(p, n, e)
                ==> pre.render_pipelines@[ff]@.contains_key(n) && pre.render_pipelines@[ff]@[n]@.contains(e),
            forall|ff: int, n: Seq<char>| 0 <= ff < o.formats@.len() && #[trigger] o.render_pipelines@[ff]@.contains_key(n)
                && !Self::listed(r.take(i), ff, n)
                ==> pre.render_pipelines@[ff]@.contains_key(n) && pre.render_pipelines@[ff]@[n] == o.render_pipelines@[ff]@[n],
            forall|ff: int, n: Seq<char>, x: (u32, PmfxHash)|
                0 <= ff < o.formats@.len() && o.render_pipelines@[ff]@.contains_key(n) && Self::listed(r.take(i), ff, n)
                    && #[trigger] pre.render_pipelines@[ff]@[n]@.contains(x)
                ==> (o.render_pipelines@[ff]@[n]@.contains(x) && !Self::entry_stale(p, n, x)) || Self::declared_render(p, n, x),
            forall|ff: int, n: Seq<char>, mm: u32| #[trigger] Self::perm_stale(o, p, ff, n, mm) && Self::listed(r.take(i), ff, n)
                && Self::live(pre, ff) && Self::has_render_decl(p, n, mm) ==> exists|x: (u32, PmfxHash)|
                #[trigger] pre.render_pipelines@[ff]@[n]@.contains(x) && x.0 == mm,
            // what rebuilding pipeline `name` for `f` did
            f < pre.render_pipelines@.len(),
            post.render_pipelines@.len() == pre.render_pipelines@.len(),
            forall|j: int| 0 <= j < pre.render_pipelines@.len() && j != f ==> #[trigger] post.render_pipelines@[j] == pre.render_pipelines@[j],
            forall|k: Seq<char>| #[trigger] pre.render_pipelines@[f]@.contains_key(k) ==> post.render_pipelines@[f]@.contains_key(k),
            forall|k: Seq<char>| k != name && #[trigger] pre.render_pipelines@[f]@.contains_key(k)
                ==> post.render_pipelines@[f]@[k] == pre.render_pipelines@[f]@[k],
            forall|e: (u32, PmfxHash)| #[trigger] pre.render_pipelines@[f]@[name]@.contains(e)
                && !Self::entry_stale(p, name, e) ==> post.render_pipelines@[f]@[name]@.contains(e),
            ok ==> forall|x: (u32, PmfxHash)| #[trigger] post.render_pipelines@[f]@[name]@.contains(x) ==> (
                pre.render_pipelines@[f]@[name]@.contains(x) && !Self::entry_stale(p, name, x))
                || (Self::declared_render(p, name, x) && Self::mask_stale(pre, f, name, x.0)),
            ok ==> forall|m: u32| #[trigger] Self::mask_stale(pre, f, name, m) && Self::live(pre, f)
                && Self::has_render_decl(p, name, m) ==> exists|x: (u32, PmfxHash)|
                #[trigger] post.render_pipelines@[f]@[name]@.contains(x) && x.0 == m,
        ensures
            forall|ff: int, n: Seq<char>| 0 <= ff < o.formats@.len() && #[trigger] o.render_pipelines@[ff]@.contains_key(n)
                ==> post.render_pipelines@[ff]@.contains_key(n),
            forall|j: int| i + 1 <= j < r.len() ==> post.render_pipelines@[(#[trigger] r[j]).0 as int]@.contains_key(r[j].1@)
                && post.render_pipelines@[r[j].0 as int]@[r[j].1@] == o.render_pipelines@[r[j].0 as int]@[r[j].1@],
            forall|ff: int, n: Seq<char>, e: (u32, PmfxHash)|
                0 <= ff < o.formats@.len() && o.render_pipelines@[ff]@.contains_key(n)
                    && #[trigger] o.render_pipelines@[ff]@[n]@.contains(e) && !Self::entry_stale(p, n, e)
                ==> post.render_pipelines@[ff]@.contains_key(n) && post.render_pipelines@[ff]@[n]@.contains(e),
            forall|ff: int, n: Seq<char>| 0 <= ff < o.formats@.len() && #[trigger] o.render_pipelines@[ff]@.contains_key(n)
                && !Self::listed(r.take(i + 1), ff, n)
                ==> post.render_pipelines@[ff]@.contains_key(n) && post.render_pipelines@[ff]@[n] == o.render_pipelines@[ff]@[n],
            ok ==> forall|ff: int, n: Seq<char>, x: (u32, PmfxHash)|
                0 <= ff < o.formats@.len() && o.render_pipelines@[ff]@.contains_key(n) && Self::listed(r.take(i + 1), ff, n)
                    && #[trigger] post.render_pipelines@[ff]@[n]@.contains(x)
                ==> (o.render_pipelines@[ff]@[n]@.contains(x) && !Self::entry_stale(p, n, x)) || Self::declared_render(p, n, x),
            ok ==> forall|ff: int, n: Seq<char>, mm: u32| #[trigger] Self::perm_stale(o, p, ff, n, mm) && Self::listed(r.take(i + 1), ff, n)
                && Self::live(post, ff) && Self::has_render_decl(p, n, mm) ==> exists|x: (u32, PmfxHash)|
                #[trigger] post.render_pipelines@[ff]@[n]@.contains(x) && x.0 == mm,
    {
        assert(pre.render_pipelines@[f]@[name] == o.render_pipelines@[f]@[name]);
        assert forall|ff: int, n: Seq<char>| 0 <= ff < o.formats@.len() && #[trigger] o.render_pipelines@[ff]@.contains_key(n)
            implies post.render_pipelines@[ff]@.contains_key(n) by {
            assert(pre.render_pipelines@[ff]@.contains_key(n));
            if ff != f {
                assert(post.render_pipelines@[ff] == pre.render_pipelines@[ff]);
            }
        }
        assert forall|j: int| i + 1 <= j < r.len() implies post.render_pipelines@[(#[trigger] r[j]).0 as int]@.contains_key(r[j].1@)
            && post.render_pipelines@[r[j].0 as int]@[r[j].1@] == o.render_pipelines@[r[j].0 as int]@[r[j].1@] by {
            assert(!(r[i].0 == r[j].0 && r[i].1@ == r[j].1@));
            if r[j].0 as int != f {
                assert(post.render_pipelines@[r[j].0 as int] == pre.render_pipelines@[r[j].0 as int]);
            }
        }
        assert forall|ff: int, n: Seq<char>, e: (u32, PmfxHash)|
            0 <= ff < o.formats@.len() && o.render_pipelines@[ff]@.contains_key(n)
                && #[trigger] o.render_pipelines@[ff]@[n]@.contains(e) && !Self::entry_stale(p, n, e)
            implies post.render_pipelines@[ff]@.contains_key(n) && post.render_pipelines@[ff]@[n]@.contains(e) by {
            if ff != f {
                assert(post.render_pipelines@[ff] == pre.render_pipelines@[ff]);
            }
        }
        assert forall|ff: int, n: Seq<char>| 0 <= ff < o.formats@.len() && #[trigger] o.render_pipelines@[ff]@.contains_key(n)
            && !Self::listed(r.take(i + 1), ff, n)
            implies post.render_pipelines@[ff]@.contains_key(n) && post.render_pipelines@[ff]@[n] == o.render_pipelines@[ff]@[n] by {
            Self::lemma_listed_take(r, i, ff, n);
            if ff != f {
                assert(post.render_pipelines@[ff] == pre.render_pipelines@[ff]);
            }
        }
        if ok {
            assert forall|ff: int, n: Seq<char>, x: (u32, PmfxHash)|
                0 <= ff < o.formats@.len() && o.render_pipelines@[ff]@.contains_key(n) && Self::listed(r.take(i + 1), ff, n)
                    && #[trigger] post.render_pipelines@[ff]@[n]@.contains(x)
                implies (o.render_pipelines@[ff]@[n]@.contains(x) && !Self::entry_stale(p, n, x)) || Self::declared_render(p, n, x) by {
                Self::lemma_listed_take(r, i, ff, n);
                if ff != f {
                    assert(post.render_pipelines@[ff] == pre.render_pipelines@[ff]);
                } else if n != name {
                    assert(post.render_pipelines@[ff]@[n] == pre.render_pipelines@[ff]@[n]);
                }
            }
            assert forall|ff: int, n: Seq<char>, mm: u32| #[trigger] Self::perm_stale(o, p, ff, n, mm) && Self::listed(r.take(i + 1), ff, n)
                && Self::live(post, ff) && Self::has_render_decl(p, n, mm) implies exists|x: (u32, PmfxHash)|
                #[trigger] post.render_pipelines@[ff]@[n]@.contains(x) && x.0 == mm by {
                Self::lemma_listed_take(r, i, ff, n);
                if ff == f && n == name {
                    assert(Self::mask_stale(pre, f, name, mm));
                } else {
                    if ff != f {
                        assert(post.render_pipelines@[ff] == pre.render_pipelines@[ff]);
                    } else {
                        assert(post.render_pipelines@[ff]@[n] == pre.render_pipelines@[ff]@[n]);
                    }
                    let x = choose|x: (u32, PmfxHash)| #[trigger] pre.render_pipelines@[ff]@[n]@.contains(x) && x.0 == mm;
                    assert(post.render_pipelines@[ff]@[n]@.contains(x));
                }
            }
        }
    }

    /// Built textures whose declarations changed.
    fn stale_textures(&self) -> (r: Vec<String>)
        requires
            self.wf(),
        ensures
            forall|j: int| 0 <= j < r@.len() ==> Self::texture_stale(*self, self.pmfx, #[trigger] r@[j]@),
            forall|t: Seq<char>| #[trigger] Self::texture_stale(*self, self.pmfx, t) ==> names_of(r@).contains(t),
    {
        let mut r: Vec<String> = Vec::new();
        let mut i: usize = 0;
        while i < self.textures.len()
            invariant
                self.wf(),
                i <= self.textures.entries().len(),
                forall|j: int| 0 <= j < r@.len() ==> Self::texture_stale(*self, self.pmfx, #[trigger] r@[j]@),
                forall|j: int| 0 <= j < i && Self::texture_stale(*self, self.pmfx, #[trigger] self.textures.entries()[j].0@)
                    ==> names_of(r@).contains(self.textures.entries()[j].0@),
            decreases self.textures.entries().len() - i,
        {
            let name = self.textures.key_at(i);
            let built = self.textures.value_at(i);
            proof {
                self.textures.lemma_entry(i as int);
            }
            let ghost before = r@;
            if let Some(decl) = self.pmfx.textures.get(name) {
                if decl.hash != built.hash {
                    r.push(name.clone());
                    proof {
                        assert(names_of(r@)[before.len() as int] == name@);
                    }
                }
            }
            proof {
                assert forall|j: int| 0 <= j < i + 1 && Self::texture_stale(*self, self.pmfx, #[trigger] self.textures.entries()[j].0@)
                    implies names_of(r@).contains(self.textures.entries()[j].0@) by {
                    if j < i {
                        let k = choose|k: int| 0 <= k < names_of(before).len() && names_of(before)[k] == self.textures.entries()[j].0@;
                        assert(names_of(r@)[k] == names_of(before)[k]);
                    } else {
                        assert(self.textures.entries()[j].0@ == name@);
                    }
                }
            }
            i += 1;
        }
        proof {
            assert forall|t: Seq<char>| #[trigger] Self::texture_stale(*self, self.pmfx, t) implies names_of(r@).contains(t) by {
                let j = choose|j: int| 0 <= j < self.textures.entries().len() && #[trigger] self.textures.entries()[j].0@ == t;
                assert(Self::texture_stale(*self, self.pmfx, self.textures.entries()[j].0@));
            }
        }
        r
    }

    /// Graph views that render to one of `textures`.
    fn views_of_textures(&self, textures: &Vec<String>) -> (r: Vec<String>)
        requires
            self.wf(),
            forall|j: int| 0 <= j < textures@.len() ==> Self::texture_stale(*self, self.pmfx, #[trigger] textures@[j]@),
            forall|t: Seq<char>| #[trigger] Self::texture_stale(*self, self.pmfx, t) ==> names_of(textures@).contains(t),
        ensures
            forall|j: int| 0 <= j < r@.len() ==> Self::affected_by_stale(*self, self.pmfx, #[trigger] r@[j]@),
            forall|v: Seq<char>| #[trigger] Self::affected_by_stale(*self, self.pmfx, v) ==> names_of(r@).contains(v),
    {
        let mut r: Vec<String> = Vec::new();
        let mut i: usize = 0;
        while i < textures.len()
            invariant
                self.wf(),
                i <= textures@.len(),
                forall|j: int| 0 <= j < textures@.len() ==> Self::texture_stale(*self, self.pmfx, #[trigger] textures@[j]@),
                forall|j: int| 0 <= j < r@.len() ==> Self::affected_by_stale(*self, self.pmfx, #[trigger] r@[j]@),
                forall|x: int, v: Seq<char>| 0 <= x < i && self.view_texture_refs@.contains_key(#[trigger] textures@[x]@)
                    && #[trigger] names_of(self.view_texture_refs@[textures@[x]@]@).contains(v) ==> names_of(r@).contains(v),
            decreases textures@.len() - i,
        {
            let t = &textures[i];
            let ghost r_start = r@;
            proof {
                assert(Self::texture_stale(*self, self.pmfx, textures@[i as int]@));
            }
            match self.view_texture_refs.get(t) {
                Some(refs) => {
                    let mut k: usize = 0;
                    while k < refs.len()
                        invariant
                            self.wf(),
                            Self::texture_stale(*self, self.pmfx, t@),
                            self.view_texture_refs@.contains_key(t@),
                            *refs == self.view_texture_refs@[t@],
                            k <= refs@.len(),
                            forall|j: int| 0 <= j < r@.len() ==> Self::affected_by_stale(*self, self.pmfx, #[trigger] r@[j]@),
                            i < textures@.len(),
                            t@ == textures@[i as int]@,
                            forall|x: int, v: Seq<char>| 0 <= x < i && self.view_texture_refs@.contains_key(#[trigger] textures@[x]@)
                                && #[trigger] names_of(self.view_texture_refs@[textures@[x]@]@).contains(v) ==> names_of(r@).contains(v),
                            forall|kk: int| 0 <= kk < k ==> names_of(r@).contains(#[trigger] refs@[kk]@),
                        decreases refs@.len() - k,
                    {
                        let ghost before = r@;
                        r.push(refs[k].clone());
                        proof {
                            assert(names_of(refs@)[k as int] == refs@[k as int]@);
                            assert forall|j: int| 0 <= j < r@.len() implies Self::affected_by_stale(*self, self.pmfx, #[trigger] r@[j]@) by {
                                if j < before.len() {
                                    assert(r@[j] == before[j]);
                                } else {
                                    assert(names_of(self.view_texture_refs@[t@]@).contains(r@[j]@));
                                    assert(Self::texture_stale(*self, self.pmfx, t@));
                                }
                            }
                            assert(names_of(r@)[before.len() as int] == refs@[k as int]@);
                            assert forall|v: Seq<char>| names_of(before).contains(v) implies names_of(r@).contains(v) by {
                                let q = choose|q: int| 0 <= q < names_of(before).len() && names_of(before)[q] == v;
                                assert(names_of(r@)[q] == names_of(before)[q]);
                            }
                            assert forall|kk: int| 0 <= kk < k + 1 implies names_of(r@).contains(#[trigger] refs@[kk]@) by {
                                if kk < k {
                                    assert(names_of(before).contains(refs@[kk]@));
                                }
                            }
                        }
                        k += 1;
                    }
                },
                None => {},
            }
            proof {
                assert forall|x: int, v: Seq<char>| 0 <= x < i + 1 && self.view_texture_refs@.contains_key(#[trigger] textures@[x]@)
                    && #[trigger] names_of(self.view_texture_refs@[textures@[x]@]@).contains(v) implies names_of(r@).contains(v) by {
                    if x == i {
                        let q = choose|q: int| 0 <= q < names_of(self.view_texture_refs@[textures@[x]@]@).len()
                            && names_of(self.view_texture_refs@[textures@[x]@]@)[q] == v;
                        assert(self.view_texture_refs@[textures@[x]@]@[q]@ == v);
                    }
                }
            }
            i += 1;
        }
        proof {
            assert forall|v: Seq<char>| #[trigger] Self::affected_by_stale(*self, self.pmfx, v) implies names_of(r@).contains(v) by {
                let t = choose|t: Seq<char>| #[trigger] Self::texture_stale(*self, self.pmfx, t) && self.view_texture_refs@.contains_key(t)
                    && names_of(self.view_texture_refs@[t]@).contains(v);
                assert(names_of(textures@).contains(t));
                let x = choose|x: int| 0 <= x < names_of(textures@).len() && names_of(textures@)[x] == t;
                assert(textures@[x]@ == t);
            }
        }
        r
    }

    /// Built views whose declarations changed or that render to a stale texture.
    fn stale_views(&self, affected: &Vec<String>) -> (r: Vec<String>)
        requires
            self.wf(),
            forall|j: int| 0 <= j < affected@.len() ==> Self::affected_by_stale(*self, self.pmfx, #[trigger] affected@[j]@),
            forall|v: Seq<char>| #[trigger] Self::affected_by_stale(*self, self.pmfx, v) ==> names_of(affected@).contains(v),
        ensures
            forall|j: int| 0 <= j < r@.len() ==> Self::view_stale(*self, self.pmfx, #[trigger] r@[j]@),
            forall|v: Seq<char>| #[trigger] Self::view_hash_stale(*self, self.pmfx, v) ==> names_of(r@).contains(v),
            forall|v: Seq<char>| #[trigger] Self::view_stale(*self, self.pmfx, v) ==> names_of(r@).contains(v),
    {
        let mut r: Vec<String> = Vec::new();
        let mut i: usize = 0;
        while i < self.views.len()
            invariant
                self.wf(),
                i <= self.views.entries().len(),
                forall|j: int| 0 <= j < affected@.len() ==> Self::affected_by_stale(*self, self.pmfx, #[trigger] affected@[j]@),
                forall|j: int| 0 <= j < r@.len() ==> Self::view_stale(*self, self.pmfx, #[trigger] r@[j]@),
                forall|j: int| 0 <= j < i && Self::view_hash_stale(*self, self.pmfx, #[trigger] self.views.entries()[j].0@)
                    ==> names_of(r@).contains(self.views.entries()[j].0@),
                forall|v: Seq<char>| #[trigger] Self::affected_by_stale(*self, self.pmfx, v) ==> names_of(affected@).contains(v),
                forall|j: int| 0 <= j < i && Self::view_stale(*self, self.pmfx, #[trigger] self.views.entries()[j].0@)
                    ==> names_of(r@).contains(self.views.entries()[j].0@),
            decreases self.views.entries().len() - i,
        {
            let name = self.views.key_at(i);
            let v = self.views.value_at(i);
            let ghost before = r@;
            proof {
                self.views.lemma_entry(i as int);
            }
            if let Some(decl) = self.pmfx.views.get(&v.pmfx_view_name) {
                let changed = decl.hash != v.hash;
                let touched = crate::graph::contains_name(affected, name);
                if changed || touched {
                    proof {
                        if !changed {
                            let j = choose|j: int| 0 <= j < names_of(affected@).len() && names_of(affected@)[j] == name@;
                            assert(affected@[j]@ == name@);
                        }
                    }
                    r.push(name.clone());
                    proof {
                        assert(names_of(r@)[before.len() as int] == name@);
                    }
                }
            }
            proof {
                assert forall|j: int| 0 <= j < i + 1 && Self::view_stale(*self, self.pmfx, #[trigger] self.views.entries()[j].0@)
                    implies names_of(r@).contains(self.views.entries()[j].0@) by {
                    if j < i {
                        let k = choose|k: int| 0 <= k < names_of(before).len() && names_of(before)[k] == self.views.entries()[j].0@;
                        assert(names_of(r@)[k] == names_of(before)[k]);
                    } else {
                        assert(self.views.entries()[j].0@ == name@);
                        if !(self.pmfx.views@[v.pmfx_view_name@].hash != v.hash) {
                            assert(Self::affected_by_stale(*self, self.pmfx, name@));
                            assert(names_of(affected@).contains(name@));
                        }
                    }
                }
                assert forall|j: int| 0 <= j < i + 1 && Self::view_hash_stale(*self, self.pmfx, #[trigger] self.views.entries()[j].0@)
                    implies names_of(r@).contains(self.views.entries()[j].0@) by {
                    if j < i {
                        let k = choose|k: int| 0 <= k < names_of(before).len() && names_of(before)[k] == self.views.entries()[j].0@;
                        assert(names_of(r@)[k] == names_of(before)[k]);
                    } else {
                        assert(self.views.entries()[j].0@ == name@);
                    }
                }
            }
            i += 1;
        }
        proof {
            assert forall|v: Seq<char>| #[trigger] Self::view_stale(*self, self.pmfx, v) implies names_of(r@).contains(v) by {
                let j = choose|j: int| 0 <= j < self.views.entries().len() && #[trigger] self.views.entries()[j].0@ == v;
                assert(Self::view_stale(*self, self.pmfx, self.views.entries()[j].0@));
            }
            assert forall|v: Seq<char>| #[trigger] Self::view_hash_stale(*self, self.pmfx, v) implies names_of(r@).contains(v) by {
                let j = choose|j: int| 0 <= j < self.views.entries().len() && #[trigger] self.views.entries()[j].0@ == v;
                assert(Self::view_hash_stale(*self, self.pmfx, self.views.entries()[j].0@));
            }
        }
        r
    }

    /// Built shaders whose declarations changed.
    fn stale_shaders(&self) -> (r: Vec<String>)
        requires
            self.wf(),
        ensures
            forall|j: int| 0 <= j < r@.len() ==> Self::shader_stale(*self, self.pmfx, #[trigger] r@[j]@),
            forall|k: Seq<char>| #[trigger] Self::shader_stale(*self, self.pmfx, k) ==> names_of(r@).contains(k),
    {
        let mut r: Vec<String> = Vec::new();
        let mut i: usize = 0;
        while i < self.shaders.len()
            invariant
                self.wf(),
                i <= self.shaders.entries().len(),
                forall|j: int| 0 <= j < r@.len() ==> Self::shader_stale(*self, self.pmfx, #[trigger] r@[j]@),
                forall|j: int| 0 <= j < i && Self::shader_stale(*self, self.pmfx, #[trigger] self.shaders.entries()[j].0@)
                    ==> names_of(r@).contains(self.shaders.entries()[j].0@),
            decreases self.shaders.entries().len() - i,
        {
            let name = self.shaders.key_at(i);
            let built = *self.shaders.value_at(i);
            let ghost before = r@;
            proof {
                self.shaders.lemma_entry(i as int);
            }
            if let Some(decl) = self.pmfx.shaders.get(name) {
                if *decl != built {
                    r.push(name.clone());
                    proof {
                        assert(names_of(r@)[before.len() as int] == name@);
                    }
                }
            }
            proof {
                assert forall|j: int| 0 <= j < i + 1 && Self::shader_stale(*self, self.pmfx, #[trigger] self.shaders.entries()[j].0@)
                    implies names_of(r@).contains(self.shaders.entries()[j].0@) by {
                    if j < i {
                        let k = choose|k: int| 0 <= k < names_of(before).len() && names_of(before)[k] == self.shaders.entries()[j].0@;
                        assert(names_of(r@)[k] == names_of(before)[k]);
                    } else {
                        assert(self.shaders.entries()[j].0@ == name@);
                    }
                }
            }
            i += 1;
        }
        proof {
            assert forall|k: Seq<char>| #[trigger] Self::shader_stale(*self, self.pmfx, k) implies names_of(r@).contains(k) by {
                let j = choose|j: int| 0 <= j < self.shaders.entries().len() && #[trigger] self.shaders.entries()[j].0@ == k;
                assert(Self::shader_stale(*self, self.pmfx, self.shaders.entries()[j].0@));
            }
        }
        r
    }

    /// Built render pipelines (format, name) with a permutation whose declaration changed.
    fn stale_pipelines(&self) -> (r: Vec<(usize, String)>)
        requires
            self.wf(),
        ensures
            forall|j: int| 0 <= j < r@.len() ==> Self::pipeline_stale(*self, self.pmfx, (#[trigger] r@[j]).0 as int, r@[j].1@),
            forall|f: int, n: Seq<char>| #[trigger] Self::pipeline_stale(*self, self.pmfx, f, n) ==> Self::listed(r@, f, n),
            forall|j: int, k: int| 0 <= j < k < r@.len() ==> !((#[trigger] r@[j]).0 == (#[trigger] r@[k]).0 && r@[j].1@ == r@[k].1@),
            forall|j: int| 0 <= j < r@.len() ==> (#[trigger] r@[j]).0 < self.render_pipelines@.len()
                && self.render_pipelines@[r@[j].0 as int]@.contains_key(r@[j].1@),
    {
        let mut r: Vec<(usize, String)> = Vec::new();
        let mut f: usize = 0;
        while f < self.render_pipelines.len()
            invariant
                self.wf(),
                f <= self.render_pipelines@.len(),
                forall|j: int| 0 <= j < r@.len() ==> Self::pipeline_stale(*self, self.pmfx, (#[trigger] r@[j]).0 as int, r@[j].1@),
                forall|ff: int, n: Seq<char>| 0 <= ff < f && #[trigger] Self::pipeline_stale(*self, self.pmfx, ff, n) ==> Self::listed(r@, ff, n),
                forall|j: int, k: int| 0 <= j < k < r@.len() ==> !((#[trigger] r@[j]).0 == (#[trigger] r@[k]).0 && r@[j].1@ == r@[k].1@),
                forall|j: int| 0 <= j < r@.len() ==> (#[trigger] r@[j]).0 < f,
                forall|j: int| 0 <= j < r@.len() ==> (#[trigger] r@[j]).0 < self.render_pipelines@.len()
                    && self.render_pipelines@[r@[j].0 as int]@.contains_key(r@[j].1@),
            decreases self.render_pipelines@.len() - f,
        {
            let table = &self.render_pipelines[f];
            let mut i: usize = 0;
            while i < table.len()
                invariant
                    self.wf(),
                    f < self.render_pipelines@.len(),
                    *table == self.render_pipelines@[f as int],
                    i <= table.entries().len(),
                    forall|j: int| 0 <= j < r@.len() ==> Self::pipeline_stale(*self, self.pmfx, (#[trigger] r@[j]).0 as int, r@[j].1@),
                    forall|ff: int, n: Seq<char>| 0 <= ff < f && #[trigger] Self::pipeline_stale(*self, self.pmfx, ff, n) ==> Self::listed(r@, ff, n),
                    forall|x: int| 0 <= x < i && #[trigger] Self::pipeline_stale(*self, self.pmfx, f as int, table.entries()[x].0@)
                        ==> Self::listed(r@, f as int, table.entries()[x].0@),
                    forall|j: int, k: int| 0 <= j < k < r@.len() ==> !((#[trigger] r@[j]).0 == (#[trigger] r@[k]).0 && r@[j].1@ == r@[k].1@),
                    forall|j: int| 0 <= j < r@.len() ==> (#[trigger] r@[j]).0 < f || ((r@[j].0 == f) && exists|x: int|
                        0 <= x < i && #[trigger] table.entries()[x].0@ == r@[j].1@),
                    forall|j: int| 0 <= j < r@.len() ==> (#[trigger] r@[j]).0 < self.render_pipelines@.len()
                        && self.render_pipelines@[r@[j].0 as int]@.contains_key(r@[j].1@),
                decreases table.entries().len() - i,
            {
                let name = table.key_at(i);
                let list = table.value_at(i);
                let ghost before = r@;
                proof {
                    table.lemma_entry(i as int);
                }
                if let Some(decl) = self.pmfx.pipelines.get(name) {
                    let mut stale = false;
                    let mut a: usize = 0;
                    while a < list.len() && !stale
                        invariant
                            a <= list@.len(),
                            stale ==> exists|x: int, y: int|
                                0 <= x < list@.len() && 0 <= y < decl@.len() && #[trigger] list@[x].0 == #[trigger] decl@[y].0
                                    && list@[x].1 != decl@[y].1.hash,
                            !stale ==> forall|x: int, y: int|
                                0 <= x < a && 0 <= y < decl@.len() && #[trigger] list@[x].0 == #[trigger] decl@[y].0
                                    ==> list@[x].1 == decl@[y].1.hash,
                        decreases list@.len() - a,
                    {
                        let mut b: usize = 0;
                        while b < decl.len() && !stale
                            invariant
                                a < list@.len(),
                                b <= decl@.len(),
                                stale ==> exists|x: int, y: int|
                                    0 <= x < list@.len() && 0 <= y < decl@.len() && #[trigger] list@[x].0 == #[trigger] decl@[y].0
                                        && list@[x].1 != decl@[y].1.hash,
                                !stale ==> forall|x: int, y: int|
                                    0 <= x < a && 0 <= y < decl@.len() && #[trigger] list@[x].0 == #[trigger] decl@[y].0
                                        ==> list@[x].1 == decl@[y].1.hash,
                                !stale ==> forall|y: int| 0 <= y < b && list@[a as int].0 == #[trigger] decl@[y].0 ==> list@[a as int].1 == decl@[y].1.hash,
                            decreases decl@.len() - b,
                        {
                            if list[a].0 == decl[b].0 && list[a].1 != decl[b].1.hash {
                                stale = true;
                            }
                            b += 1;
                        }
                        a += 1;
                    }
                    if stale {
                        r.push((f, name.clone()));
                        proof {
                            assert forall|j: int| 0 <= j < r@.len() implies Self::pipeline_stale(*self, self.pmfx, (#[trigger] r@[j]).0 as int, r@[j].1@) by {
                                if j < before.len() {
                                    assert(r@[j] == before[j]);
                                }
                            }
                            assert(r@[before.len() as int].0 == f && r@[before.len() as int].1@ == name@);
                            assert forall|j: int, k: int| 0 <= j < k < r@.len() implies !((#[trigger] r@[j]).0 == (#[trigger] r@[k]).0 && r@[j].1@ == r@[k].1@) by {
                                if k == before.len() {
                                    assert(r@[j] == before[j]);
                                    if before[j].0 == f {
                                        let x = choose|x: int| 0 <= x < i && #[trigger] table.entries()[x].0@ == before[j].1@;
                                        assert(self.render_pipelines@[f as int].wf());
                                        assert(x != i);
                                        assert(table.entries()[x].0@ != table.entries()[i as int].0@);
                                    }
                                } else {
                                    assert(r@[j] == before[j] && r@[k] == before[k]);
                                }
                            }
                            assert forall|j: int| 0 <= j < r@.len() implies (#[trigger] r@[j]).0 < f || ((r@[j].0 == f) && exists|x: int|
                                0 <= x < i + 1 && #[trigger] table.entries()[x].0@ == r@[j].1@) by {
                                if j < before.len() {
                                    assert(r@[j] == before[j]);
                                    if before[j].0 == f {
                                        let x = choose|x: int| 0 <= x < i && #[trigger] table.entries()[x].0@ == before[j].1@;
                                        assert(table.entries()[x].0@ == r@[j].1@);
                                    }
                                } else {
                                    assert(table.entries()[i as int].0@ == r@[j].1@);
                                }
                            }
                            assert forall|j: int| 0 <= j < r@.len() implies (#[trigger] r@[j]).0 < self.render_pipelines@.len()
                                && self.render_pipelines@[r@[j].0 as int]@.contains_key(r@[j].1@) by {
                                if j < before.len() {
                                    assert(r@[j] == before[j]);
                                }
                            }
                        }
                    } else {
                        proof {
                            assert(!Self::pipeline_stale(*self, self.pmfx, f as int, name@));
                        }
                    }
                }
                proof {
                    assert forall|j: int| 0 <= j < r@.len() implies (#[trigger] r@[j]).0 < f || ((r@[j].0 == f) && exists|x: int|
                        0 <= x < i + 1 && #[trigger] table.entries()[x].0@ == r@[j].1@) by {
                        if r@[j].0 == f && j < before.len() {
                            assert(r@[j] == before[j]);
                            let x = choose|x: int| 0 <= x < i && #[trigger] table.entries()[x].0@ == before[j].1@;
                            assert(table.entries()[x].0@ == r@[j].1@);
                        }
                    }
                    assert forall|ff: int, n: Seq<char>| 0 <= ff < f && #[trigger] Self::pipeline_stale(*self, self.pmfx, ff, n)
                        implies Self::listed(r@, ff, n) by {
                        assert(Self::listed(before, ff, n));
                        let j = choose|j: int| 0 <= j < before.len() && before[j].0 == ff && before[j].1@ == n;
                        assert(r@[j] == before[j]);
                    }
                    assert forall|x: int| 0 <= x < i + 1 && #[trigger] Self::pipeline_stale(*self, self.pmfx, f as int, table.entries()[x].0@)
                        implies Self::listed(r@, f as int, table.entries()[x].0@) by {
                        if x < i {
                            assert(Self::listed(before, f as int, table.entries()[x].0@));
                            let j = choose|j: int| 0 <= j < before.len() && before[j].0 == f && before[j].1@ == table.entries()[x].0@;
                            assert(r@[j] == before[j]);
                        }
                    }
                }
                i += 1;
            }
            proof {
                assert forall|ff: int, n: Seq<char>| 0 <= ff < f + 1 && #[trigger] Self::pipeline_stale(*self, self.pmfx, ff, n)
                    implies Self::listed(r@, ff, n) by {
                    if ff == f {
                        let x = choose|x: int| 0 <= x < table.entries().len() && #[trigger] table.entries()[x].0@ == n;
                        assert(Self::pipeline_stale(*self, self.pmfx, f as int, table.entries()[x].0@));
                    }
                }
            }
            f += 1;
        }
        r
    }

    /// Pair (`f`, `n`) is among `r`.
    pub open spec fn listed(r: Seq<(usize, String)>, f: int, n: Seq<char>) -> bool {
        exists|j: int| 0 <= j < r.len() && (#[trigger] r[j]).0 == f && r[j].1@ == n
    }

    /// Merges `other` into the data: its declarations replace those of the same name.
    pub fn merge_pmfx(&mut self, other: PmfxFile)
        requires
            old(self).wf(),
            other.wf(),
        ensures
            final(self).wf(),
            final(self).pmfx.shaders@ == old(self).pmfx.shaders@.union_prefer_right(other.shaders@),
            final(self).pmfx.raster_states@ == old(self).pmfx.raster_states@.union_prefer_right(other.raster_states@),
            final(self).pmfx.depth_stencil_states@ == old(self).pmfx.depth_stencil_states@.union_prefer_right(other.depth_stencil_states@),
            final(self).pmfx.pipelines@ == old(self).pmfx.pipelines@.union_prefer_right(other.pipelines@),
            final(self).pmfx.textures@ == old(self).pmfx.textures@.union_prefer_right(other.textures@),
            final(self).pmfx.views@ == old(self).pmfx.views@.union_prefer_right(other.views@),
            final(self).pmfx.render_graphs@ == old(self).pmfx.render_graphs@.union_prefer_right(other.render_graphs@),
            final(self).pmfx.dependencies@ == old(self).pmfx.dependencies@ + other.dependencies@,
            final(self).textures == old(self).textures,
            final(self).views == old(self).views,
            final(self).shaders == old(self).shaders,
            final(self).formats == old(self).formats,
            final(self).render_pipelines == old(self).render_pipelines,
            final(self).compute_pipelines == old(self).compute_pipelines,
            final(self).view_texture_refs == old(self).view_texture_refs,
            final(self).window_sizes == old(self).window_sizes,
            final(self).sources == old(self).sources,
            final(self).pmfx_folders == old(self).pmfx_folders,
            final(self).active_render_graph == old(self).active_render_graph,
            final(self).commands == old(self).commands,
            final(self).compiled == old(self).compiled,
    {
        let PmfxFile { shaders, raster_states, depth_stencil_states, pipelines, textures, views, render_graphs, dependencies } = other;
        let mut dependencies = dependencies;
        self.pmfx.shaders.extend(shaders);
        self.pmfx.raster_states.extend(raster_states);
        self.pmfx.depth_stencil_states.extend(depth_stencil_states);
        self.pmfx.pipelines.extend(pipelines);
        self.pmfx.textures.extend(textures);
        self.pmfx.views.extend(views);
        self.pmfx.render_graphs.extend(render_graphs);
        self.pmfx.dependencies.append(&mut dependencies);
        proof {
            let rg = self.pmfx.render_graphs@;
            assert forall|k: Seq<char>| #[trigger] rg.contains_key(k) implies rg[k].wf() by {
                if other.render_graphs@.contains_key(k) {
                    assert(rg[k] == other.render_graphs@[k]);
                } else {
                    assert(rg[k] == old(self).pmfx.render_graphs@[k]);
                }
            }
            let tx = self.pmfx.textures@;
            assert forall|k: Seq<char>| #[trigger] tx.contains_key(k) implies (tx[k].ratio matches Some(r) ==> r.scale_den > 0) by {
                if other.textures@.contains_key(k) {
                    assert(tx[k] == other.textures@[k]);
                } else {
                    assert(tx[k] == old(self).pmfx.textures@[k]);
                }
            }
        }
    }

    /// Loads the data of pmfx source `pmfx_name`, read from `filepath` as it was at
    /// `modified_time`, unless a source of that name is loaded already. Returns whether it
    /// was loaded.
    pub fn load(&mut self, pmfx_name: &str, filepath: &str, file: PmfxFile, modified_time: u64) -> (r: bool)
        requires
            old(self).wf(),
            file.wf(),
        ensures
            final(self).wf(),
            r == !old(self).sources@.contains_key(pmfx_name@),
            !r ==> *final(self) == *old(self),
            r ==> {
                &&& final(self).sources@.contains_key(pmfx_name@)
                &&& final(self).sources@[pmfx_name@].filepath@ == filepath@
                &&& final(self).sources@[pmfx_name@].modified_time == modified_time
                &&& final(self).pmfx.textures@ == old(self).pmfx.textures@.union_prefer_right(file.textures@)
                &&& final(self).pmfx.views@ == old(self).pmfx.views@.union_prefer_right(file.views@)
                &&& final(self).pmfx.render_graphs@ == old(self).pmfx.render_graphs@.union_prefer_right(file.render_graphs@)
                &&& final(self).pmfx.pipelines@ == old(self).pmfx.pipelines@.union_prefer_right(file.pipelines@)
                &&& final(self).pmfx.shaders@ == old(self).pmfx.shaders@.union_prefer_right(file.shaders@)
                &&& final(self).pmfx.raster_states@ == old(self).pmfx.raster_states@.union_prefer_right(file.raster_states@)
                &&& final(self).pmfx.depth_stencil_states@ == old(self).pmfx.depth_stencil_states@.union_prefer_right(file.depth_stencil_states@)
                &&& final(self).pmfx.dependencies@ == old(self).pmfx.dependencies@ + file.dependencies@
                &&& forall|k: Seq<char>| #[trigger] file.pipelines@.contains_key(k) ==> final(self).pmfx_folders@.contains_key(k)
                    && final(self).pmfx_folders@[k]@ == filepath@
            },
    {
        let name = pmfx_name.to_owned();
        if self.sources.contains_key(&name) {
            return false;
        }
        let folder = filepath.to_owned();
        let mut i: usize = 0;
        while i < file.pipelines.len()
            invariant
                self.wf(),
                file.wf(),
                i <= file.pipelines.entries().len(),
                folder@ == filepath@,
                self.pmfx == old(self).pmfx,
                self.sources == old(self).sources,
                self.sources == old(self).sources,
                self.textures == old(self).textures,
                self.views == old(self).views,
                forall|j: int| 0 <= j < i ==> #[trigger] self.pmfx_folders@.contains_key(file.pipelines.key_seq()[j])
                    && self.pmfx_folders@[file.pipelines.key_seq()[j]]@ == filepath@,
            decreases file.pipelines.entries().len() - i,
        {
            self.pmfx_folders.insert(file.pipelines.key_at(i).clone(), folder.clone());
            i += 1;
        }
        proof {
            file.pipelines.lemma_keys();
            assert forall|k: Seq<char>| #[trigger] file.pipelines@.contains_key(k) implies self.pmfx_folders@.contains_key(k)
                && self.pmfx_folders@[k]@ == filepath@ by {
                assert(file.pipelines.key_seq().contains(k));
                let j = choose|j: int| 0 <= j < file.pipelines.key_seq().len() && file.pipelines.key_seq()[j] == k;
                assert(self.pmfx_folders@.contains_key(file.pipelines.key_seq()[j]));
            }
        }
        self.sources.insert(name, SourceInfo { filepath: folder, modified_time });
        self.merge_pmfx(file);
        true
    }

    /// Whether pmfx source `pmfx_name` is loaded and was read before `modified_time`.
    pub fn needs_reload(&self, pmfx_name: &str, modified_time: u64) -> (r: bool)
        requires
            self.wf(),
        ensures
            r == (self.sources@.contains_key(pmfx_name@) && self.sources@[pmfx_name@].modified_time < modified_time),
    {
        match self.sources.get(&pmfx_name.to_owned()) {
            Some(src) => src.modified_time < modified_time,
            None => false,
        }
    }

    /// Takes in a new version of loaded source `pmfx_name`, read at `modified_time`, and
    /// rebuilds only what its content hashes say has changed: textures whose hash changed
    /// are created again, views whose hash changed or that render to such a texture are
    /// destroyed, shaders whose hash changed are destroyed, and pipelines with a changed
    /// permutation are destroyed and built again against a live view of their pass format
    /// when there is one. If any view was destroyed the active render graph is compiled
    /// again. Everything whose hash is unchanged stays as it is.
    pub fn reload(&mut self, pmfx_name: &str, file: PmfxFile, modified_time: u64) -> (r: Result<(), PmfxError>)
        requires
            old(self).wf(),
            file.wf(),
        ensures
            final(self).wf(),
            final(self).pmfx.textures@ == old(self).pmfx.textures@.union_prefer_right(file.textures@),
            final(self).pmfx.views@ == old(self).pmfx.views@.union_prefer_right(file.views@),
            final(self).pmfx.shaders@ == old(self).pmfx.shaders@.union_prefer_right(file.shaders@),
            final(self).pmfx.pipelines@ == old(self).pmfx.pipelines@.union_prefer_right(file.pipelines@),
            forall|t: Seq<char>| #[trigger] old(self).textures@.contains_key(t) && !Self::texture_stale(*old(self), final(self).pmfx, t)
                ==> final(self).textures@.contains_key(t) && final(self).textures@[t] == old(self).textures@[t],
            forall|k: Seq<char>| #[trigger] old(self).shaders@.contains_key(k) && !Self::shader_stale(*old(self), final(self).pmfx, k)
                ==> final(self).shaders@.contains_key(k) && final(self).shaders@[k] == old(self).shaders@[k],
            forall|v: Seq<char>| #[trigger] old(self).views@.contains_key(v) && !Self::view_stale(*old(self), final(self).pmfx, v)
                ==> final(self).views@.contains_key(v) && final(self).views@[v] == old(self).views@[v],
            forall|f: int, n: Seq<char>, e: (u32, PmfxHash)|
                0 <= f < old(self).formats@.len() && old(self).render_pipelines@[f]@.contains_key(n)
                    && #[trigger] old(self).render_pipelines@[f]@[n]@.contains(e) && !Self::entry_stale(final(self).pmfx, n, e)
                ==> final(self).render_pipelines@[f]@.contains_key(n) && final(self).render_pipelines@[f]@[n]@.contains(e),
            r is Ok ==> forall|f: int, n: Seq<char>, x: (u32, PmfxHash)|
                0 <= f < old(self).formats@.len() && old(self).render_pipelines@[f]@.contains_key(n)
                    && #[trigger] final(self).render_pipelines@[f]@[n]@.contains(x)
                ==> (old(self).render_pipelines@[f]@[n]@.contains(x) && !Self::entry_stale(final(self).pmfx, n, x))
                    || Self::declared_render(final(self).pmfx, n, x),
            r is Ok ==> forall|f: int, n: Seq<char>, m: u32| #[trigger] Self::perm_stale(*old(self), final(self).pmfx, f, n, m)
                && Self::live(*final(self), f) && Self::has_render_decl(final(self).pmfx, n, m) ==> exists|x: (u32, PmfxHash)|
                #[trigger] final(self).render_pipelines@[f]@[n]@.contains(x) && x.0 == m,
            Self::queued_changed(*old(self), final(self).pmfx, *final(self)),
            r is Ok ==> forall|t: Seq<char>| #[trigger] Self::texture_stale(*old(self), final(self).pmfx, t) ==> Self::replaced(
                final(self).commands@, old(self).commands@.len() as int, t),
            r is Ok && (exists|v: Seq<char>| #[trigger] Self::view_stale(*old(self), final(self).pmfx, v))
                && final(self).pmfx.render_graphs@.contains_key(old(self).active_render_graph@) ==> {
                let g = final(self).pmfx.render_graphs@[old(self).active_render_graph@].entries();
                let keys = seed_keys(final(self).pmfx.textures.entries());
                &&& final(self).active_render_graph@ == old(self).active_render_graph@
                &&& steps_of(final(self).compiled.entries@) == compile(
                    g,
                    final(self).pmfx.views@,
                    seed_states(keys),
                    keys,
                    final(self).resolvable_of(keys),
                )
            },
            r is Ok ==> forall|t: Seq<char>| #[trigger] Self::texture_stale(*old(self), final(self).pmfx, t)
                ==> final(self).textures@.contains_key(t) && final(self).textures@[t].hash == final(self).pmfx.textures@[t].hash,
            r is Ok ==> forall|k: Seq<char>| #[trigger] Self::shader_stale(*old(self), final(self).pmfx, k)
                && final(self).shaders@.contains_key(k) ==> final(self).shaders@[k] == final(self).pmfx.shaders@[k],
            r is Ok ==> forall|v: Seq<char>| #[trigger] Self::view_hash_stale(*old(self), final(self).pmfx, v)
                && final(self).views@.contains_key(v) ==> final(self).views@[v].hash
                    == final(self).pmfx.views@[final(self).views@[v].pmfx_view_name@].hash,
            r is Ok && old(self).sources@.contains_key(pmfx_name@) ==> final(self).sources@.contains_key(pmfx_name@)
                && final(self).sources@[pmfx_name@].modified_time == modified_time,
            r is Err ==> {
                ||| exists|t: Seq<char>| #[trigger] Self::texture_stale(*old(self), final(self).pmfx, t)
                    && final(self).size_for(final(self).pmfx.textures@[t]) is None
                ||| exists|f: int, n: Seq<char>, m: u32| #[trigger] Self::perm_stale(*old(self), final(self).pmfx, f, n, m)
                ||| exists|v: Seq<char>| #[trigger] Self::view_stale(*old(self), final(self).pmfx, v)
            },
    {
        let ghost ftex = file.textures@;
        let ghost fviews = file.views@;
        let ghost fshaders = file.shaders@;
        let ghost fpipes = file.pipelines@;
        self.merge_pmfx(file);
        let ghost m = *self;
        let ghost o = *old(self);
        let stale_t = self.stale_textures();
        let affected = self.views_of_textures(&stale_t);
        let stale_v = self.stale_views(&affected);
        let stale_s = self.stale_shaders();
        let stale_p = self.stale_pipelines();
        proof {
            assert forall|t: Seq<char>| #[trigger] Self::texture_stale(m, m.pmfx, t) == Self::texture_stale(o, m.pmfx, t) by {}
            assert forall|v: Seq<char>| #[trigger] Self::affected_by_stale(m, m.pmfx, v) == Self::affected_by_stale(o, m.pmfx, v) by {
                if Self::affected_by_stale(m, m.pmfx, v) {
                    let t = choose|t: Seq<char>| #[trigger] Self::texture_stale(m, m.pmfx, t) && m.view_texture_refs@.contains_key(t)
                        && names_of(m.view_texture_refs@[t]@).contains(v);
                    assert(Self::texture_stale(o, m.pmfx, t));
                }
                if Self::affected_by_stale(o, m.pmfx, v) {
                    let t = choose|t: Seq<char>| #[trigger] Self::texture_stale(o, m.pmfx, t) && o.view_texture_refs@.contains_key(t)
                        && names_of(o.view_texture_refs@[t]@).contains(v);
                    assert(Self::texture_stale(m, m.pmfx, t));
                }
            }
            assert forall|v: Seq<char>| #[trigger] Self::view_stale(m, m.pmfx, v) == Self::view_stale(o, m.pmfx, v) by {
                assert(Self::affected_by_stale(m, m.pmfx, v) == Self::affected_by_stale(o, m.pmfx, v));
            }
            assert forall|k: Seq<char>| #[trigger] Self::shader_stale(m, m.pmfx, k) == Self::shader_stale(o, m.pmfx, k) by {}
            assert forall|f: int, n: Seq<char>| #[trigger] Self::pipeline_stale(m, m.pmfx, f, n) == Self::pipeline_stale(o, m.pmfx, f, n) by {}
            assert forall|f: int, n: Seq<char>| #[trigger] Self::pipeline_stale(o, m.pmfx, f, n) implies Self::listed(stale_p@, f, n) by {
                assert(Self::pipeline_stale(m, m.pmfx, f, n));
            }
            assert forall|t: Seq<char>| #[trigger] o.textures@.contains_key(t) && !Self::texture_stale(o, m.pmfx, t)
                implies !names_of(stale_t@).contains(t) by {
                if names_of(stale_t@).contains(t) {
                    let j = choose|j: int| 0 <= j < names_of(stale_t@).len() && names_of(stale_t@)[j] == t;
                    assert(Self::texture_stale(m, m.pmfx, stale_t@[j]@));
                }
            }
            assert forall|v: Seq<char>| #[trigger] o.views@.contains_key(v) && !Self::view_stale(o, m.pmfx, v)
                implies !names_of(stale_v@).contains(v) by {
                if names_of(stale_v@).contains(v) {
                    let j = choose|j: int| 0 <= j < names_of(stale_v@).len() && names_of(stale_v@)[j] == v;
                    assert(Self::view_stale(m, m.pmfx, stale_v@[j]@));
                }
            }
            assert forall|k: Seq<char>| #[trigger] o.shaders@.contains_key(k) && !Self::shader_stale(o, m.pmfx, k)
                implies !names_of(stale_s@).contains(k) by {
                if names_of(stale_s@).contains(k) {
                    let j = choose|j: int| 0 <= j < names_of(stale_s@).len() && names_of(stale_s@)[j] == k;
                    assert(Self::shader_stale(m, m.pmfx, stale_s@[j]@));
                }
            }
        }
        // textures
        let ghost before_recreate = *self;
        let c = self.recreate_textures(&stale_t);
        proof {
            assert(before_recreate.commands == o.commands);
            assert forall|x: int| o.commands@.len() <= x < self.commands@.len() implies Self::names_changed(o, m.pmfx, #[trigger] self.commands@[x]) by {
                assert(Self::texture_cmd_in(self.commands@[x], names_of(stale_t@)));
                match self.commands@[x] {
                    DeviceCommand::DestroyTexture { name } => {
                        let j = choose|j: int| 0 <= j < names_of(stale_t@).len() && names_of(stale_t@)[j] == name@;
                        assert(Self::texture_stale(m, m.pmfx, stale_t@[j]@));
                    },
                    DeviceCommand::CreateTexture { name, .. } => {
                        let j = choose|j: int| 0 <= j < names_of(stale_t@).len() && names_of(stale_t@)[j] == name@;
                        assert(Self::texture_stale(m, m.pmfx, stale_t@[j]@));
                    },
                    _ => {},
                }
            }
            assert(Self::queued_changed(o, m.pmfx, *self));
        }
        if c.is_err() {
            proof {
                let j = choose|j: int| 0 <= j < stale_t@.len() && m.pmfx.textures@.contains_key(#[trigger] stale_t@[j]@)
                    && self.size_for(m.pmfx.textures@[stale_t@[j]@]) is None;
                assert(Self::texture_stale(m, m.pmfx, stale_t@[j]@));
                assert(Self::texture_stale(o, m.pmfx, stale_t@[j]@));
            }
            return c;
        }
        proof {
            assert forall|t: Seq<char>| #[trigger] Self::texture_stale(o, m.pmfx, t) implies self.textures@.contains_key(t)
                && self.textures@[t].hash == self.pmfx.textures@[t].hash by {
                assert(Self::texture_stale(m, m.pmfx, t));
                assert(names_of(stale_t@).contains(t));
                let j = choose|j: int| 0 <= j < names_of(stale_t@).len() && names_of(stale_t@)[j] == t;
                assert(stale_t@[j]@ == t);
                assert(m.pmfx.textures@.contains_key(stale_t@[j]@));
            }
        }
        let ghost recreated = self.textures;
        proof {
            assert forall|t: Seq<char>| #[trigger] Self::texture_stale(o, m.pmfx, t) implies Self::replaced(self.commands@, o.commands@.len() as int, t) by {
                assert(Self::texture_stale(m, m.pmfx, t));
                assert(names_of(stale_t@).contains(t));
                let j = choose|j: int| 0 <= j < names_of(stale_t@).len() && names_of(stale_t@)[j] == t;
                assert(stale_t@[j]@ == t);
                assert(before_recreate.textures@.contains_key(stale_t@[j]@));
            }
        }
        proof {
            assert forall|t: Seq<char>| #[trigger] o.textures@.contains_key(t) && !Self::texture_stale(o, m.pmfx, t)
                implies recreated@.contains_key(t) && recreated@[t] == o.textures@[t] by {
                assert(!names_of(stale_t@).contains(t));
            }
        }
        // views
        let mut i: usize = 0;
        while i < stale_v.len()
            invariant
                self.wf(),
                i <= stale_v@.len(),
                self.pmfx == m.pmfx,
                self.sources == m.sources,
                self.textures == recreated,
                self.shaders == o.shaders,
                self.render_pipelines == o.render_pipelines,
                self.formats == o.formats,
                forall|v: Seq<char>| #[trigger] o.views@.contains_key(v) && !names_of(stale_v@).contains(v)
                    ==> self.views@.contains_key(v) && self.views@[v] == o.views@[v],
                forall|j: int| 0 <= j < i ==> !self.views@.contains_key(#[trigger] stale_v@[j]@),
                Self::queued_changed(o, m.pmfx, *self),
                self.active_render_graph == o.active_render_graph,
                forall|t: Seq<char>| #[trigger] Self::texture_stale(o, m.pmfx, t) ==> Self::replaced(self.commands@, o.commands@.len() as int, t),
                forall|j: int| 0 <= j < stale_v@.len() ==> Self::view_stale(m, m.pmfx, #[trigger] stale_v@[j]@),
                forall|v: Seq<char>| #[trigger] Self::view_stale(m, m.pmfx, v) == Self::view_stale(o, m.pmfx, v),
            decreases stale_v@.len() - i,
        {
            let ghost cv = self.commands@;
            if self.views.contains_key(&stale_v[i]) {
                self.views.remove(&stale_v[i]);
                self.commands.push(DeviceCommand::DestroyView { name: stale_v[i].clone() });
            }
            proof {
                assert(self.commands@.take(cv.len() as int) =~= cv);
                Self::lemma_replaced_kept(cv, self.commands@, o.commands@.len() as int);
                assert forall|x: int| 0 <= x < o.commands@.len() implies self.commands@[x] == o.commands@[x] by {
                    assert(cv.take(o.commands@.len() as int)[x] == o.commands@[x]);
                }
                assert(self.commands@.take(o.commands@.len() as int) =~= o.commands@);
                assert(Self::view_stale(o, m.pmfx, stale_v@[i as int]@));
                assert forall|x: int| o.commands@.len() <= x < self.commands@.len() implies Self::names_changed(o, m.pmfx, #[trigger] self.commands@[x]) by {
                    if x < cv.len() {
                        assert(self.commands@[x] == cv[x]);
                    }
                }
            }
            proof {
                assert(names_of(stale_v@)[i as int] == stale_v@[i as int]@);
            }
            i += 1;
        }
        let ghost views_left = self.views;
        // shaders
        let mut i: usize = 0;
        while i < stale_s.len()
            invariant
                self.wf(),
                i <= stale_s@.len(),
                self.pmfx == m.pmfx,
                self.sources == m.sources,
                self.textures == recreated,
                self.render_pipelines == o.render_pipelines,
                self.formats == o.formats,
                forall|v: Seq<char>| #[trigger] o.views@.contains_key(v) && !names_of(stale_v@).contains(v)
                    ==> self.views@.contains_key(v) && self.views@[v] == o.views@[v],
                forall|k: Seq<char>| #[trigger] o.shaders@.contains_key(k) && !names_of(stale_s@).contains(k)
                    ==> self.shaders@.contains_key(k) && self.shaders@[k] == o.shaders@[k],
                self.views == views_left,
                forall|j: int| 0 <= j < i ==> !self.shaders@.contains_key(#[trigger] stale_s@[j]@),
                Self::queued_changed(o, m.pmfx, *self),
                self.active_render_graph == o.active_render_graph,
                forall|t: Seq<char>| #[trigger] Self::texture_stale(o, m.pmfx, t) ==> Self::replaced(self.commands@, o.commands@.len() as int, t),
                forall|j: int| 0 <= j < stale_s@.len() ==> Self::shader_stale(m, m.pmfx, #[trigger] stale_s@[j]@),
                forall|k: Seq<char>| #[trigger] Self::shader_stale(m, m.pmfx, k) == Self::shader_stale(o, m.pmfx, k),
            decreases stale_s@.len() - i,
        {
            let ghost cv = self.commands@;
            if self.shaders.contains_key(&stale_s[i]) {
                self.shaders.remove(&stale_s[i]);
                self.commands.push(DeviceCommand::DestroyShader { file: stale_s[i].clone() });
            }
            proof {
                assert(self.commands@.take(cv.len() as int) =~= cv);
                Self::lemma_replaced_kept(cv, self.commands@, o.commands@.len() as int);
                assert forall|x: int| 0 <= x < o.commands@.len() implies self.commands@[x] == o.commands@[x] by {
                    assert(cv.take(o.commands@.len() as int)[x] == o.commands@[x]);
                }
                assert(self.commands@.take(o.commands@.len() as int) =~= o.commands@);
                assert(Self::shader_stale(o, m.pmfx, stale_s@[i as int]@));
                assert forall|x: int| o.commands@.len() <= x < self.commands@.len() implies Self::names_changed(o, m.pmfx, #[trigger] self.commands@[x]) by {
                    if x < cv.len() {
                        assert(self.commands@[x] == cv[x]);
                    }
                }
            }
            proof {
                assert(names_of(stale_s@)[i as int] == stale_s@[i as int]@);
            }
            i += 1;
        }
        let ghost cleaned = *self;
        proof {
            assert forall|k: Seq<char>| #[trigger] Self::shader_stale(o, m.pmfx, k) implies !cleaned.shaders@.contains_key(k) by {
                assert(Self::shader_stale(m, m.pmfx, k));
                let j = choose|j: int| 0 <= j < names_of(stale_s@).len() && names_of(stale_s@)[j] == k;
                assert(stale_s@[j]@ == k);
            }
            assert forall|v: Seq<char>| #[trigger] Self::view_hash_stale(o, m.pmfx, v) implies !cleaned.views@.contains_key(v) by {
                assert(Self::view_hash_stale(m, m.pmfx, v));
                let j = choose|j: int| 0 <= j < names_of(stale_v@).len() && names_of(stale_v@)[j] == v;
                assert(stale_v@[j]@ == v);
            }
        }
        // the source is up to date now
        let src = pmfx_name.to_owned();
        if let Some(info) = self.sources.get(&src) {
            let path = info.filepath.clone();
            self.sources.insert(src, SourceInfo { filepath: path, modified_time });
        }
        let ghost before_graph = *self;
        let ghost p = m.pmfx;
        proof {
            assert forall|t: Seq<char>| #[trigger] o.textures@.contains_key(t) && !Self::texture_stale(o, p, t)
                implies self.textures@.contains_key(t) && self.textures@[t] == o.textures@[t] by {
                assert(!names_of(stale_t@).contains(t));
            }
            assert forall|v: Seq<char>| #[trigger] o.views@.contains_key(v) && !Self::view_stale(o, p, v)
                implies self.views@.contains_key(v) && self.views@[v] == o.views@[v] by {
                assert(!names_of(stale_v@).contains(v));
            }
            assert forall|k: Seq<char>| #[trigger] o.shaders@.contains_key(k) && !Self::shader_stale(o, p, k)
                implies self.shaders@.contains_key(k) && self.shaders@[k] == o.shaders@[k] by {
                assert(!names_of(stale_s@).contains(k));
            }
        }
        // the active render graph is compiled again when a view was destroyed
        let active = self.active_render_graph.clone();
        let recompile = stale_v.len() > 0 && self.pmfx.render_graphs.contains_key(&active);
        if recompile {
            proof {
                assert(Self::view_stale(m, m.pmfx, stale_v@[0]@));
                assert(Self::view_stale(o, m.pmfx, stale_v@[0]@));
            }
            let c = self.create_render_graph(active.as_str());
            proof {
                Self::lemma_changed_from_new(o, p, before_graph, *self);
                Self::lemma_replaced_kept(before_graph.commands@, self.commands@, o.commands@.len() as int);
            }
            if c.is_err() {
                proof {
                    assert forall|f: int, n: Seq<char>, e: (u32, PmfxHash)|
                        0 <= f < o.formats@.len() && o.render_pipelines@[f]@.contains_key(n)
                            && #[trigger] o.render_pipelines@[f]@[n]@.contains(e) && !Self::entry_stale(p, n, e)
                        implies self.render_pipelines@[f]@.contains_key(n) && self.render_pipelines@[f]@[n]@.contains(e) by {
                        assert(before_graph.render_pipelines@[f]@.contains_key(n));
                    }
                }
                return c;
            }
        }
        let ghost after_graph = *self;
        proof {
            assert(Self::keeps_built(before_graph, after_graph) || after_graph == before_graph);
            assert forall|f: int, n: Seq<char>| 0 <= f < o.formats@.len() && #[trigger] o.render_pipelines@[f]@.contains_key(n)
                implies after_graph.render_pipelines@[f]@.contains_key(n) && after_graph.render_pipelines@[f]@[n] == o.render_pipelines@[f]@[n] by {
                assert(before_graph.render_pipelines@[f]@.contains_key(n));
            }
            if after_graph == before_graph {
                assert(self.commands@.take(before_graph.commands@.len() as int) =~= before_graph.commands@);
                Self::lemma_replaced_kept(before_graph.commands@, self.commands@, o.commands@.len() as int);
            }
            assert forall|k: Seq<char>| #[trigger] Self::shader_stale(o, p, k) && self.shaders@.contains_key(k)
                implies self.shaders@[k] == p.shaders@[k] by {
                assert(!cleaned.shaders@.contains_key(k));
                if before_graph.shaders@.contains_key(k) {
                    assert(self.shaders@[k] == before_graph.shaders@[k]);
                }
            }
            assert forall|t: Seq<char>| #[trigger] o.textures@.contains_key(t) && !Self::texture_stale(o, p, t)
                implies self.textures@.contains_key(t) && self.textures@[t] == o.textures@[t] by {
                assert(before_graph.textures@.contains_key(t));
            }
            assert forall|v: Seq<char>| #[trigger] o.views@.contains_key(v) && !Self::view_stale(o, p, v)
                implies self.views@.contains_key(v) && self.views@[v] == o.views@[v] by {
                assert(before_graph.views@.contains_key(v));
            }
            assert forall|k: Seq<char>| #[trigger] o.shaders@.contains_key(k) && !Self::shader_stale(o, p, k)
                implies self.shaders@.contains_key(k) && self.shaders@[k] == o.shaders@[k] by {
                assert(before_graph.shaders@.contains_key(k));
            }
            assert forall|t: Seq<char>| #[trigger] Self::texture_stale(o, p, t) implies self.textures@.contains_key(t)
                && self.textures@[t].hash == p.textures@[t].hash by {
                assert(before_graph.textures@.contains_key(t));
            }
            assert forall|v: Seq<char>| #[trigger] Self::view_hash_stale(o, p, v) && self.views@.contains_key(v)
                implies self.views@[v].hash == p.views@[self.views@[v].pmfx_view_name@].hash by {
                assert(!cleaned.views@.contains_key(v));
                assert(!before_graph.views@.contains_key(v));
            }
            assert forall|j: int| 0 <= j < stale_p@.len() implies (#[trigger] stale_p@[j]).0 < o.render_pipelines@.len() by {
                assert(stale_p@[j].0 < m.render_pipelines@.len());
            }
            if exists|v: Seq<char>| #[trigger] Self::view_stale(o, p, v) {
                let v = choose|v: Seq<char>| #[trigger] Self::view_stale(o, p, v);
                assert(Self::view_stale(m, p, v));
                assert(names_of(stale_v@).contains(v));
                assert(stale_v@.len() > 0);
                if p.render_graphs@.contains_key(o.active_render_graph@) {
                    assert(recompile);
                }
            }
        }
        // stale permutations are destroyed and built again against a live view of their format
        let mut i: usize = 0;
        while i < stale_p.len()
            invariant
                self.wf(),
                o.wf(),
                o == *old(self),
                p == m.pmfx,
                i <= stale_p@.len(),
                self.pmfx == p,
                self.sources == after_graph.sources,
                self.textures == after_graph.textures,
                self.views == after_graph.views,
                self.compiled == after_graph.compiled,
                self.active_render_graph == after_graph.active_render_graph,
                self.formats == after_graph.formats,
                self.render_pipelines@.len() == after_graph.render_pipelines@.len(),
                o.render_pipelines@.len() <= self.render_pipelines@.len(),
                o.render_pipelines@.len() == o.formats@.len(),
                Self::queued_changed(o, p, *self),
                forall|j: int| 0 <= j < stale_p@.len() ==> (#[trigger] stale_p@[j]).0 < o.render_pipelines@.len(),
                forall|ff: int, n: Seq<char>| 0 <= ff < o.formats@.len() && #[trigger] o.render_pipelines@[ff]@.contains_key(n)
                    ==> self.render_pipelines@[ff]@.contains_key(n),
                m.pmfx.textures@ == o.pmfx.textures@.union_prefer_right(ftex),
                m.pmfx.views@ == o.pmfx.views@.union_prefer_right(fviews),
                m.pmfx.shaders@ == o.pmfx.shaders@.union_prefer_right(fshaders),
                m.pmfx.pipelines@ == o.pmfx.pipelines@.union_prefer_right(fpipes),
                ftex == file.textures@,
                fviews == file.views@,
                fshaders == file.shaders@,
                fpipes == file.pipelines@,
                forall|t: Seq<char>| #[trigger] o.textures@.contains_key(t) && !Self::texture_stale(o, p, t)
                    ==> self.textures@.contains_key(t) && self.textures@[t] == o.textures@[t],
                forall|v: Seq<char>| #[trigger] o.views@.contains_key(v) && !Self::view_stale(o, p, v)
                    ==> self.views@.contains_key(v) && self.views@[v] == o.views@[v],
                forall|t: Seq<char>| #[trigger] Self::texture_stale(o, p, t) ==> self.textures@.contains_key(t)
                    && self.textures@[t].hash == p.textures@[t].hash,
                forall|v: Seq<char>| #[trigger] Self::view_hash_stale(o, p, v) && self.views@.contains_key(v)
                    ==> self.views@[v].hash == p.views@[self.views@[v].pmfx_view_name@].hash,
                (exists|v: Seq<char>| #[trigger] Self::view_stale(o, p, v)) && p.render_graphs@.contains_key(o.active_render_graph@) ==> {
                    let g = p.render_graphs@[o.active_render_graph@].entries();
                    let keys = seed_keys(p.textures.entries());
                    &&& self.active_render_graph@ == o.active_render_graph@
                    &&& steps_of(self.compiled.entries@) == compile(g, p.views@, seed_states(keys), keys, self.resolvable_of(keys))
                },
                forall|t: Seq<char>| #[trigger] Self::texture_stale(o, p, t) ==> Self::replaced(self.commands@, o.commands@.len() as int, t),
                forall|k: Seq<char>| #[trigger] o.shaders@.contains_key(k) && !Self::shader_stale(o, p, k)
                    ==> self.shaders@.contains_key(k) && self.shaders@[k] == o.shaders@[k],
                forall|k: Seq<char>| #[trigger] Self::shader_stale(o, p, k) && self.shaders@.contains_key(k) ==> self.shaders@[k] == p.shaders@[k],
                forall|j: int| 0 <= j < stale_p@.len() ==> Self::pipeline_stale(o, p, (#[trigger] stale_p@[j]).0 as int, stale_p@[j].1@),
                forall|f: int, n: Seq<char>| #[trigger] Self::pipeline_stale(o, p, f, n) ==> Self::listed(stale_p@, f, n),
                forall|j: int, k: int| 0 <= j < k < stale_p@.len() ==> !((#[trigger] stale_p@[j]).0 == (#[trigger] stale_p@[k]).0
                    && stale_p@[j].1@ == stale_p@[k].1@),
                forall|j: int| i <= j < stale_p@.len() ==> self.render_pipelines@[(#[trigger] stale_p@[j]).0 as int]@.contains_key(stale_p@[j].1@)
                    && self.render_pipelines@[stale_p@[j].0 as int]@[stale_p@[j].1@] == o.render_pipelines@[stale_p@[j].0 as int]@[stale_p@[j].1@],
                forall|f: int, n: Seq<char>, e: (u32, PmfxHash)|
                    0 <= f < o.formats@.len() && o.render_pipelines@[f]@.contains_key(n)
                        && #[trigger] o.render_pipelines@[f]@[n]@.contains(e) && !Self::entry_stale(p, n, e)
                    ==> self.render_pipelines@[f]@.contains_key(n) && self.render_pipelines@[f]@[n]@.contains(e),
                forall|f: int, n: Seq<char>| 0 <= f < o.formats@.len() && #[trigger] o.render_pipelines@[f]@.contains_key(n)
                    && !Self::listed(stale_p@.take(i as int), f, n)
                    ==> self.render_pipelines@[f]@.contains_key(n) && self.render_pipelines@[f]@[n] == o.render_pipelines@[f]@[n],
                forall|f: int, n: Seq<char>, x: (u32, PmfxHash)|
                    0 <= f < o.formats@.len() && o.render_pipelines@[f]@.contains_key(n) && Self::listed(stale_p@.take(i as int), f, n)
                        && #[trigger] self.render_pipelines@[f]@[n]@.contains(x)
                    ==> (o.render_pipelines@[f]@[n]@.contains(x) && !Self::entry_stale(p, n, x)) || Self::declared_render(p, n, x),
                forall|f: int, n: Seq<char>, mm: u32| #[trigger] Self::perm_stale(o, p, f, n, mm) && Self::listed(stale_p@.take(i as int), f, n)
                    && Self::live(*self, f) && Self::has_render_decl(p, n, mm) ==> exists|x: (u32, PmfxHash)|
                    #[trigger] self.render_pipelines@[f]@[n]@.contains(x) && x.0 == mm,
            decreases stale_p@.len() - i,
        {
            let f = stale_p[i].0;
            let name = stale_p[i].1.clone();
            let ghost pre = *self;
            proof {
                assert(Self::pipeline_stale(o, p, f as int, name@));
            }
            let c = self.rebuild_pipeline(f, &name);
            proof {
                Self::lemma_changed_from_rebuild(o, p, pre, *self, f as int, name@);
                Self::lemma_replaced_kept(pre.commands@, self.commands@, o.commands@.len() as int);
                Self::lemma_pairs_step(o, p, pre, *self, stale_p@, i as int, f as int, name@, c is Ok);
                assert forall|k: Seq<char>| #[trigger] Self::shader_stale(o, p, k) && self.shaders@.contains_key(k)
                    implies self.shaders@[k] == p.shaders@[k] by {
                    if pre.shaders@.contains_key(k) {
                        assert(self.shaders@[k] == pre.shaders@[k]);
                    }
                }
            }
            if c.is_err() {
                proof {
                    let ff = f as int;
                    let ii = choose|ii: int, jj: int|
                        0 <= ii < o.render_pipelines@[ff]@[name@]@.len() && 0 <= jj < p.pipelines@[name@]@.len()
                            && #[trigger] o.render_pipelines@[ff]@[name@]@[ii].0 == #[trigger] p.pipelines@[name@]@[jj].0
                            && o.render_pipelines@[ff]@[name@]@[ii].1 != p.pipelines@[name@]@[jj].1.hash;
                    let (a, b) = ii;
                    assert(Self::entry_stale(p, name@, o.render_pipelines@[ff]@[name@]@[a]));
                    assert(Self::perm_stale(o, p, ff, name@, o.render_pipelines@[ff]@[name@]@[a].0));
                }
                return c;
            }
            i += 1;
        }
        proof {
            assert(stale_p@.take(stale_p@.len() as int) =~= stale_p@);
            assert forall|f: int, n: Seq<char>, x: (u32, PmfxHash)|
                0 <= f < o.formats@.len() && o.render_pipelines@[f]@.contains_key(n)
                    && #[trigger] self.render_pipelines@[f]@[n]@.contains(x)
                implies (o.render_pipelines@[f]@[n]@.contains(x) && !Self::entry_stale(p, n, x)) || Self::declared_render(p, n, x) by {
                if !Self::listed(stale_p@, f, n) {
                    assert(!Self::pipeline_stale(o, p, f, n));
                    assert(self.render_pipelines@[f]@[n] == o.render_pipelines@[f]@[n]);
                    if Self::entry_stale(p, n, x) {
                        let k = choose|k: int| 0 <= k < o.render_pipelines@[f]@[n]@.len() && o.render_pipelines@[f]@[n]@[k] == x;
                        let jj = choose|jj: int| 0 <= jj < p.pipelines@[n]@.len() && #[trigger] p.pipelines@[n]@[jj].0 == x.0 && p.pipelines@[n]@[jj].1.hash != x.1;
                        assert(o.render_pipelines@[f]@[n]@[k].0 == p.pipelines@[n]@[jj].0);
                    }
                }
            }
            assert forall|f: int, n: Seq<char>, mm: u32| #[trigger] Self::perm_stale(o, p, f, n, mm)
                && Self::live(*self, f) && Self::has_render_decl(p, n, mm) implies exists|x: (u32, PmfxHash)|
                #[trigger] self.render_pipelines@[f]@[n]@.contains(x) && x.0 == mm by {
                let k = choose|k: int| 0 <= k < o.render_pipelines@[f]@[n]@.len() && #[trigger] o.render_pipelines@[f]@[n]@[k].0 == mm
                    && Self::entry_stale(p, n, o.render_pipelines@[f]@[n]@[k]);
                let jj = choose|jj: int| 0 <= jj < p.pipelines@[n]@.len() && #[trigger] p.pipelines@[n]@[jj].0 == mm
                    && p.pipelines@[n]@[jj].1.hash != o.render_pipelines@[f]@[n]@[k].1;
                assert(o.render_pipelines@[f]@[n]@[k].0 == p.pipelines@[n]@[jj].0);
                assert(Self::pipeline_stale(o, p, f, n));
                assert(Self::listed(stale_p@, f, n));
                assert(Self::listed(stale_p@.take(stale_p@.len() as int), f, n));
            }
        }
        Ok(())
    }

    /// The built texture `texture_name`, if any.
    pub fn get_texture(&self, texture_name: &str) -> (r: Option<&TextureEntry>)
        requires
            self.wf(),
        ensures
            r is Some <==> self.textures@.contains_key(texture_name@),
            r matches Some(t) ==> *t == self.textures@[texture_name@],
    {
        self.textures.get(&texture_name.to_owned())
    }

    /// (width, height) of the built texture `texture_name`, if any.
    pub fn get_texture_2d_size(&self, texture_name: &str) -> (r: Option<(u64, u64)>)
        requires
            self.wf(),
        ensures
            r is Some <==> self.textures@.contains_key(texture_name@),
            r matches Some(size) ==> size == self.textures@[texture_name@].size,
    {
        match self.textures.get(&texture_name.to_owned()) {
            Some(t) => Some(t.size),
            None => None,
        }
    }

    /// The built view of graph node `view_name`.
    pub fn get_view(&self, view_name: &str) -> (r: Result<&views::View, PmfxError>)
        requires
            self.wf(),
        ensures
            r is Ok <==> self.views@.contains_key(view_name@),
            r matches Ok(v) ==> *v == self.views@[view_name@],
            r matches Err(e) ==> e matches PmfxError::NotFound { kind: Missing::View, name } && name@ == view_name@,
    {
        let name = view_name.to_owned();
        match self.views.get(&name) {
            Some(v) => Ok(v),
            None => Err(PmfxError::NotFound { kind: Missing::View, name }),
        }
    }

    /// The build hash of shader `file`, if it is built.
    pub fn get_shader(&self, file: &Option<String>) -> (r: Option<PmfxHash>)
        requires
            self.wf(),
        ensures
            r is Some <==> (file matches Some(f) && self.shaders@.contains_key(f@)),
            r matches Some(h) ==> h == self.shaders@[file->Some_0@],
    {
        match file {
            Some(f) => match self.shaders.get(f) {
                Some(h) => Some(*h),
                None => None,
            },
            None => None,
        }
    }

    /// Sets the camera constants of camera `name`.
    pub fn update_camera_constants(&mut self, name: &str, constants: C)
        requires
            old(self).wf(),
        ensures
            final(self).wf(),
            final(self).cameras@ == old(self).cameras@.insert(name@, constants),
    {
        self.cameras.insert(name.to_owned(), constants);
    }

    /// The camera constants of camera `name`.
    pub fn get_camera_constants(&self, name: &str) -> (r: Result<&C, PmfxError>)
        requires
            self.wf(),
        ensures
            r is Ok <==> self.cameras@.contains_key(name@),
            r matches Ok(c) ==> *c == self.cameras@[name@],
            r matches Err(e) ==> e matches PmfxError::NotFound { kind: Missing::Camera, name: n } && n@ == name@,
    {
        let key = name.to_owned();
        match self.cameras.get(&key) {
            Some(c) => Ok(c),
            None => Err(PmfxError::NotFound { kind: Missing::Camera, name: key }),
        }
    }

    /// Records an error for view `view_name`; the first error recorded for a view is kept.
    pub fn log_error(&mut self, view_name: &str, msg: &str)
        requires
            old(self).wf(),
        ensures
            final(self).wf(),
            old(self).view_errors@.contains_key(view_name@) ==> final(self).view_errors@ == old(self).view_errors@,
            !old(self).view_errors@.contains_key(view_name@) ==> final(self).view_errors@.dom() == old(self).view_errors@.dom().insert(view_name@)
                && final(self).view_errors@[view_name@]@ == msg@
                && forall|k: Seq<char>| #[trigger] old(self).view_errors@.contains_key(k) ==> final(self).view_errors@[k] == old(self).view_errors@[k],
    {
        let key = view_name.to_owned();
        if !self.view_errors.contains_key(&key) {
            self.view_errors.insert(key, msg.to_owned());
        }
    }

    /// For each node of render graph `render_graph`, in graph order, the name of its
    /// render function and the node's name.
    pub fn get_render_graph_function_info(&self, render_graph: &str) -> (r: Vec<(String, String)>)
        requires
            self.wf(),
        ensures
            !self.pmfx.render_graphs@.contains_key(render_graph@) ==> r@.len() == 0,
            self.pmfx.render_graphs@.contains_key(render_graph@) ==> {
                let g = self.pmfx.render_graphs@[render_graph@].entries();
                &&& r@.len() == g.len()
                &&& forall|j: int| 0 <= j < g.len() ==> (#[trigger] r@[j]).0@ == g[j].1.function@ && r@[j].1@ == g[j].0@
            },
    {
        let mut r: Vec<(String, String)> = Vec::new();
        match self.pmfx.render_graphs.get(&render_graph.to_owned()) {
            None => r,
            Some(graph) => {
                let mut i: usize = 0;
                while i < graph.len()
                    invariant
                        graph.wf(),
                        i <= graph.entries().len(),
                        r@.len() == i,
                        forall|j: int| 0 <= j < i ==> (#[trigger] r@[j]).0@ == graph.entries()[j].1.function@ && r@[j].1@ == graph.entries()[j].0@,
                    decreases graph.entries().len() - i,
                {
                    proof {
                        graph.lemma_entry(i as int);
                    }
                    r.push((graph.value_at(i).function.clone(), graph.key_at(i).clone()));
                    i += 1;
                }
                r
            },
        }
    }

    /// The names of the compiled submission order: `barrier_<view>-<texture>` for a
    /// transition, `barrier_resolve-<view>-<texture>` for a resolve, and the node's name
    /// for a node.
    pub fn get_render_graph_execute_order(&self) -> (r: Vec<String>)
        ensures
            r@.len() == self.compiled.entries@.len(),
            forall|j: int| 0 <= j < r@.len() ==> (#[trigger] r@[j])@ == entry_name(self.compiled.entries@[j]@),
    {
        let mut r: Vec<String> = Vec::new();
        let mut i: usize = 0;
        while i < self.compiled.entries.len()
            invariant
                i <= self.compiled.entries@.len(),
                r@.len() == i,
                forall|j: int| 0 <= j < i ==> (#[trigger] r@[j])@ == entry_name(self.compiled.entries@[j]@),
            decreases self.compiled.entries@.len() - i,
        {
            r.push(name_of_entry(&self.compiled.entries[i]));
            i += 1;
        }
        r
    }

    /// What to submit this frame, in order: each barrier of the compiled graph, and the
    /// command buffer of each node whose view is built.
    pub fn execute(&self) -> (r: Vec<Submission>)
        requires
            self.wf(),
        ensures
            r@.map_values(|s: Submission| submission_view(s)).len() == submissions_of(steps_of(self.compiled.entries@), self.views@).len(),
            forall|j: int| 0 <= j < r@.len() ==> submission_view(#[trigger] r@[j]).0 == submissions_of(steps_of(self.compiled.entries@), self.views@)[j].0
                && (r@[j] matches Submission::Barrier { index } ==> index == submissions_of(steps_of(self.compiled.entries@), self.views@)[j].1)
                && (r@[j] matches Submission::View { name } ==> name@ == submissions_of(steps_of(self.compiled.entries@), self.views@)[j].2),
    {
        let ghost steps = steps_of(self.compiled.entries@);
        let mut r: Vec<Submission> = Vec::new();
        let mut i: usize = 0;
        while i < self.compiled.entries.len()
            invariant
                self.wf(),
                steps == steps_of(self.compiled.entries@),
                i <= self.compiled.entries@.len(),
                r@.len() == submissions_of(steps.take(i as int), self.views@).len(),
                forall|j: int| 0 <= j < r@.len() ==> submission_view(#[trigger] r@[j]).0 == submissions_of(steps.take(i as int), self.views@)[j].0
                    && (r@[j] matches Submission::Barrier { index } ==> index == submissions_of(steps.take(i as int), self.views@)[j].1)
                    && (r@[j] matches Submission::View { name } ==> name@ == submissions_of(steps.take(i as int), self.views@)[j].2),
            decreases self.compiled.entries@.len() - i,
        {
            proof {
                assert(steps.take(i + 1).drop_last() =~= steps.take(i as int));
                assert(steps.take(i + 1).last() == self.compiled.entries@[i as int]@);
            }
            let ghost prev = r@;
            match &self.compiled.entries[i] {
                GraphEntry::Node { name } => {
                    if self.views.contains_key(name) {
                        r.push(Submission::View { name: name.clone() });
                    }
                },
                _ => {
                    r.push(Submission::Barrier { index: i });
                },
            }
            proof {
                assert forall|j: int| 0 <= j < r@.len() implies submission_view(#[trigger] r@[j]).0 == submissions_of(steps.take(i + 1), self.views@)[j].0
                    && (r@[j] matches Submission::Barrier { index } ==> index == submissions_of(steps.take(i + 1), self.views@)[j].1)
                    && (r@[j] matches Submission::View { name } ==> name@ == submissions_of(steps.take(i + 1), self.views@)[j].2) by {
                    if j < prev.len() {
                        assert(r@[j] == prev[j]);
                    }
                }
            }
            i += 1;
        }
        proof {
            assert(steps.take(self.compiled.entries@.len() as int) =~= steps);
        }
        r
    }

    /// Hands over the queued device work, oldest first, leaving the queue empty.
    pub fn take_commands(&mut self) -> (r: Vec<DeviceCommand>)
        requires
            old(self).wf(),
        ensures
            final(self).wf(),
            r@ == old(self).commands@,
            final(self).commands@.len() == 0,
            Self::same_but_textures(*old(self), *final(self)),
            final(self).textures == old(self).textures,
    {
        let mut r: Vec<DeviceCommand> = Vec::new();
        std::mem::swap(&mut r, &mut self.commands);
        r
    }

    /// The views whose command buffers are to be reset for a new frame: those of the
    /// compiled submission order that are built.
    pub fn reset(&self) -> (r: Vec<String>)
        requires
            self.wf(),
        ensures
            forall|j: int| 0 <= j < r@.len() ==> self.views@.contains_key(#[trigger] r@[j]@)
                && steps_of(self.compiled.entries@).contains(Step::Node { name: r@[j]@ }),
            forall|k: int| 0 <= k < self.compiled.entries@.len() && (#[trigger] self.compiled.entries@[k])@ is Node
                && self.views@.contains_key(self.compiled.entries@[k]@->Node_name)
                ==> names_of(r@).contains(self.compiled.entries@[k]@->Node_name),
    {
        let mut r: Vec<String> = Vec::new();
        let mut i: usize = 0;
        while i < self.compiled.entries.len()
            invariant
                self.wf(),
                i <= self.compiled.entries@.len(),
                forall|j: int| 0 <= j < r@.len() ==> self.views@.contains_key(#[trigger] r@[j]@)
                    && steps_of(self.compiled.entries@).contains(Step::Node { name: r@[j]@ }),
                forall|k: int| 0 <= k < i && (#[trigger] self.compiled.entries@[k])@ is Node
                    && self.views@.contains_key(self.compiled.entries@[k]@->Node_name)
                    ==> names_of(r@).contains(self.compiled.entries@[k]@->Node_name),
            decreases self.compiled.entries@.len() - i,
        {
            let ghost prev = r@;
            if let GraphEntry::Node { name } = &self.compiled.entries[i] {
                if self.views.contains_key(name) {
                    r.push(name.clone());
                    proof {
                        assert(steps_of(self.compiled.entries@)[i as int] == Step::Node { name: name@ });
                        assert(names_of(r@)[prev.len() as int] == name@);
                    }
                }
            }
            proof {
                assert forall|j: int| 0 <= j < r@.len() implies self.views@.contains_key(#[trigger] r@[j]@)
                    && steps_of(self.compiled.entries@).contains(Step::Node { name: r@[j]@ }) by {
                    if j < prev.len() {
                        assert(r@[j] == prev[j]);
                    }
                }
                assert forall|k: int| 0 <= k < i + 1 && (#[trigger] self.compiled.entries@[k])@ is Node
                    && self.views@.contains_key(self.compiled.entries@[k]@->Node_name)
                    implies names_of(r@).contains(self.compiled.entries@[k]@->Node_name) by {
                    if k < i {
                        let m = choose|m: int| 0 <= m < names_of(prev).len() && names_of(prev)[m] == self.compiled.entries@[k]@->Node_name;
                        assert(names_of(r@)[m] == names_of(prev)[m]);
                    }
                }
            }
            i += 1;
        }
        r
    }

    /// Creating a texture a second time, with nothing changed in between, creates nothing
    /// and changes nothing.
    pub proof fn lemma_create_texture_idempotent(a: Self, b: Self, c: Self, name: Seq<char>, r1: Result<(), PmfxError>, r2: Result<(), PmfxError>)
        requires
            Self::texture_creation(a, b, name, r1),
            r1 is Ok,
            Self::texture_creation(b, c, name, r2),
        ensures
            c == b,
            r2 is Ok,
    {
    }

    /// Creating a view a second time, with nothing changed in between, creates nothing
    /// and changes nothing.
    pub proof fn lemma_create_view_idempotent(
        a: Self,
        b: Self,
        c: Self,
        view_name: Seq<char>,
        gv: Seq<char>,
        info: GraphViewInfo,
        r1: Result<(), PmfxError>,
        r2: Result<(), PmfxError>,
    )
        requires
            Self::view_creation(a, b, view_name, gv, info, r1),
            r1 is Ok,
            Self::view_creation(b, c, view_name, gv, info, r2),
        ensures
            c == b,
            r2 is Ok,
    {
    }

    /// Creating a pipeline for a pass format a second time, with nothing changed in
    /// between, creates nothing and changes nothing.
    pub proof fn lemma_create_pipeline_idempotent(
        a: Self,
        b: Self,
        c: Self,
        name: Seq<char>,
        format: int,
        r1: Result<(), PmfxError>,
        r2: Result<(), PmfxError>,
    )
        requires
            0 <= format < a.formats@.len(),
            Self::pipeline_creation(a, b, name, format, r1),
            r1 is Ok,
            Self::pipeline_creation(b, c, name, format, r2),
        ensures
            c == b,
            r2 is Ok,
    {
    }
}

} // verus!
