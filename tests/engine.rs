use hotline_pmfx::data::{
    GraphViewInfo, Pipeline, PmfxFile, ResourceState, TextureInfo, TextureSizeRatio, ViewInfo,
};
use hotline_pmfx::error::{Missing, PmfxError};
use hotline_pmfx::names::NameMap;
use hotline_pmfx::pmfx::{info_from_state, DeviceCommand, Pmfx, PmfxReloadResponder, Submission};
use hotline_pmfx::texture::{ratio_size, to_gfx_texture_info, TextureType};

fn names(v: &[&str]) -> Vec<String> {
    v.iter().map(|s| s.to_string()).collect()
}

fn texture(ratio: Option<(&str, u32, u32)>, samples: u32, usage: Vec<ResourceState>, hash: u64) -> TextureInfo {
    TextureInfo {
        ratio: ratio.map(|(w, n, d)| TextureSizeRatio { window: w.to_string(), scale_num: n, scale_den: d }),
        filepath: None,
        width: 256,
        height: 128,
        depth: 1,
        mip_levels: 1,
        array_levels: 1,
        samples,
        format: "RGBA8n".to_string(),
        usage,
        hash,
    }
}

fn sampled_target() -> Vec<ResourceState> {
    vec![ResourceState::ShaderResource, ResourceState::RenderTarget]
}

fn file(albedo_hash: u64, view_hash: u64, shader_hash: u64) -> PmfxFile {
    let mut f = PmfxFile::new();
    f.textures.insert("albedo".to_string(), texture(Some(("main_window", 1, 2)), 1, sampled_target(), albedo_hash));
    f.textures.insert("lit".to_string(), texture(None, 1, vec![ResourceState::RenderTarget], 7));
    f.views.insert(
        "gbuffer".to_string(),
        ViewInfo { render_target: names(&["albedo"]), depth_stencil: Vec::new(), camera: "main".to_string(), hash: view_hash },
    );
    f.views.insert(
        "lighting".to_string(),
        ViewInfo { render_target: names(&["lit"]), depth_stencil: Vec::new(), camera: "main".to_string(), hash: 3 },
    );
    let mut graph = NameMap::new();
    graph.insert(
        "gbuffer".to_string(),
        GraphViewInfo {
            view: "gbuffer".to_string(),
            pipelines: names(&["mesh"]),
            function: "render_meshes".to_string(),
            depends_on: Vec::new(),
            reads: Vec::new(),
        },
    );
    graph.insert(
        "lighting".to_string(),
        GraphViewInfo {
            view: "lighting".to_string(),
            pipelines: Vec::new(),
            function: "render_lighting".to_string(),
            depends_on: names(&["gbuffer"]),
            reads: names(&["albedo"]),
        },
    );
    f.render_graphs.insert("forward".to_string(), graph);
    f.shaders.insert("mesh.vsc".to_string(), shader_hash);
    f.raster_states.insert("wireframe".to_string(), ());
    f.pipelines.insert(
        "mesh".to_string(),
        vec![(0, Pipeline {
            vs: Some("mesh.vsc".to_string()),
            ps: None,
            cs: None,
            raster_state: Some("wireframe".to_string()),
            depth_stencil_state: Some("undeclared".to_string()),
            topology: None,
            hash: shader_hash,
        })],
    );
    f
}

fn loaded() -> Pmfx<u32> {
    let mut pmfx: Pmfx<u32> = Pmfx::create();
    pmfx.update_window((800, 600), "main_window").unwrap();
    assert!(pmfx.load("forward", "data/forward", file(10, 20, 30), 100));
    pmfx
}

#[test]
fn load_once_per_source() {
    let mut pmfx = loaded();
    assert!(!pmfx.load("forward", "data/forward", file(11, 20, 30), 200));
    assert!(pmfx.needs_reload("forward", 101));
    assert!(!pmfx.needs_reload("forward", 100));
    assert!(!pmfx.needs_reload("other", 500));
}

#[test]
fn create_texture_twice_creates_once() {
    let mut pmfx = loaded();
    pmfx.create_texture("albedo").unwrap();
    let first = pmfx.take_commands();
    assert_eq!(first.len(), 1);
    assert!(matches!(&first[0], DeviceCommand::CreateTexture { name, desc } if name == "albedo" && desc.width == 400 && desc.height == 300));
    pmfx.create_texture("albedo").unwrap();
    assert!(pmfx.take_commands().is_empty());
    assert_eq!(pmfx.get_texture_2d_size("albedo"), Some((400, 300)));
    // undeclared textures are not created
    pmfx.create_texture("nothing").unwrap();
    assert!(pmfx.take_commands().is_empty());
    assert!(pmfx.get_texture("nothing").is_none());
}

#[test]
fn texture_for_unknown_window_is_an_error() {
    let mut pmfx: Pmfx<u32> = Pmfx::create();
    assert!(pmfx.load("forward", "data/forward", file(10, 20, 30), 100));
    let r = pmfx.create_texture("albedo");
    assert!(matches!(r, Err(PmfxError::NotFound { kind: Missing::Window, .. })));
}

#[test]
fn render_graph_builds_views_pipelines_and_order() {
    let mut pmfx = loaded();
    pmfx.create_render_graph("forward").unwrap();
    assert_eq!(pmfx.active_render_graph, "forward");
    assert_eq!(
        pmfx.get_render_graph_execute_order(),
        names(&["barrier_gbuffer-albedo", "gbuffer", "barrier_lighting-albedo", "lighting"])
    );
    let v = pmfx.get_view("gbuffer").unwrap();
    assert_eq!(v.size, (400, 300));
    assert_eq!(v.view_pipeline, "mesh");
    assert_eq!(pmfx.get_view("lighting").unwrap().view_pipeline, "");
    let format = v.format;
    assert_eq!(pmfx.get_render_pipeline_for_format("mesh", format).ok(), Some(30));
    assert_eq!(pmfx.get_shader(&Some("mesh.vsc".to_string())), Some(30));
    let commands = pmfx.take_commands();
    assert!(commands.iter().any(|c| matches!(c, DeviceCommand::CreateView { name } if name == "gbuffer")));
    assert!(commands.iter().any(|c| matches!(c, DeviceCommand::CreateShader { file, .. } if file == "mesh.vsc")));
    assert!(commands.iter().any(|c| matches!(c, DeviceCommand::CreateRenderPipeline { name, permutation: 0, .. } if name == "mesh")));
    assert!(commands.iter().any(|c| matches!(c,
        DeviceCommand::CreateRenderPipeline { raster_state: Some(r), depth_stencil_state: None, topology, .. }
            if r == "wireframe" && topology == "TriangleList")));
    assert!(matches!(commands.last(), Some(DeviceCommand::BuildBarriers)));
    let submissions = pmfx.execute();
    assert_eq!(submissions.len(), 4);
    assert!(matches!(&submissions[0], Submission::Barrier { index: 0 }));
    assert!(matches!(&submissions[1], Submission::View { name } if name == "gbuffer"));
    assert_eq!(pmfx.reset(), names(&["gbuffer", "lighting"]));
    assert_eq!(
        pmfx.get_render_graph_function_info("forward"),
        vec![
            ("render_meshes".to_string(), "gbuffer".to_string()),
            ("render_lighting".to_string(), "lighting".to_string())
        ]
    );
    assert!(pmfx.get_render_graph_function_info("none").is_empty());
}

#[test]
fn missing_render_graph_is_an_error() {
    let mut pmfx = loaded();
    let r = pmfx.create_render_graph("none");
    assert!(matches!(r, Err(PmfxError::NotFound { kind: Missing::RenderGraph, .. })));
}

#[test]
fn create_view_and_pipeline_twice_create_once() {
    let mut pmfx = loaded();
    let node = GraphViewInfo {
        view: "gbuffer".to_string(),
        pipelines: Vec::new(),
        function: String::new(),
        depends_on: Vec::new(),
        reads: Vec::new(),
    };
    pmfx.create_view("gbuffer", "g", &node).unwrap();
    pmfx.take_commands();
    pmfx.create_view("gbuffer", "g", &node).unwrap();
    assert!(pmfx.take_commands().is_empty());
    let format = pmfx.get_view("g").unwrap().format;
    pmfx.create_pipeline("mesh", format).unwrap();
    assert!(!pmfx.take_commands().is_empty());
    pmfx.create_pipeline("mesh", format).unwrap();
    assert!(pmfx.take_commands().is_empty());
    assert!(matches!(pmfx.create_pipeline("none", format), Err(PmfxError::NotFound { kind: Missing::Pipeline, .. })));
}

#[test]
fn window_resize_recreates_ratio_textures_and_views() {
    let mut pmfx = loaded();
    pmfx.create_render_graph("forward").unwrap();
    pmfx.take_commands();
    pmfx.update_window((1600, 1200), "main_window").unwrap();
    assert_eq!(pmfx.get_texture_2d_size("albedo"), Some((800, 600)));
    assert_eq!(pmfx.get_texture_2d_size("lit"), Some((256, 128)));
    assert_eq!(pmfx.get_view("gbuffer").unwrap().size, (800, 600));
    let commands = pmfx.take_commands();
    assert!(commands.iter().any(|c| matches!(c, DeviceCommand::DestroyTexture { name } if name == "albedo")));
    assert!(commands.iter().any(|c| matches!(c, DeviceCommand::DestroyView { name } if name == "gbuffer")));
    assert!(commands.iter().any(|c| matches!(c, DeviceCommand::CreateView { name } if name == "gbuffer")));
    assert!(!commands.iter().any(|c| matches!(c, DeviceCommand::DestroyView { name } if name == "lighting")));
    assert_eq!(pmfx.get_window_size("main_window"), (1600, 1200));
    // the same size again changes nothing
    pmfx.update_window((1600, 1200), "main_window").unwrap();
    assert!(pmfx.take_commands().is_empty());
}

#[test]
fn ratio_size_clamps_to_sample_count() {
    let half = TextureSizeRatio { window: "w".to_string(), scale_num: 1, scale_den: 2 };
    assert_eq!(ratio_size((1600, 1200), 1, &half), (800, 600));
    assert_eq!(ratio_size((0, 0), 4, &half), (4, 4));
    assert_eq!(ratio_size((6, 20), 4, &half), (4, 10));
    let whole = TextureSizeRatio { window: "w".to_string(), scale_num: 1, scale_den: 1 };
    assert_eq!(ratio_size((0, 3), 4, &whole), (4, 4));
}

#[test]
fn reload_with_same_hashes_rebuilds_nothing() {
    let mut pmfx = loaded();
    pmfx.create_render_graph("forward").unwrap();
    pmfx.take_commands();
    pmfx.reload("forward", file(10, 20, 30), 200).unwrap();
    assert!(pmfx.take_commands().is_empty());
    assert!(!pmfx.needs_reload("forward", 200));
}

#[test]
fn reload_rebuilds_what_changed() {
    let mut pmfx = loaded();
    pmfx.create_render_graph("forward").unwrap();
    pmfx.take_commands();
    pmfx.reload("forward", file(11, 20, 31), 200).unwrap();
    let commands = pmfx.take_commands();
    assert!(commands.iter().any(|c| matches!(c, DeviceCommand::DestroyTexture { name } if name == "albedo")));
    assert!(commands.iter().any(|c| matches!(c, DeviceCommand::DestroyView { name } if name == "gbuffer")));
    assert!(!commands.iter().any(|c| matches!(c, DeviceCommand::DestroyView { name } if name == "lighting")));
    assert!(commands.iter().any(|c| matches!(c, DeviceCommand::DestroyShader { file } if file == "mesh.vsc")));
    assert!(commands.iter().any(|c| matches!(c, DeviceCommand::DestroyRenderPipeline { name, permutation: 0, .. } if name == "mesh")));
    assert_eq!(pmfx.get_texture("albedo").unwrap().hash, 11);
    assert_eq!(pmfx.get_shader(&Some("mesh.vsc".to_string())), Some(31));
    let format = pmfx.get_view("gbuffer").unwrap().format;
    assert_eq!(pmfx.get_render_pipeline_permutation_for_format("mesh", 0, format).ok(), Some(31));
}

#[test]
fn reload_of_changed_view_hash_rebuilds_only_that_view() {
    let mut pmfx = loaded();
    pmfx.create_render_graph("forward").unwrap();
    pmfx.take_commands();
    pmfx.reload("forward", file(10, 21, 30), 200).unwrap();
    let commands = pmfx.take_commands();
    assert!(commands.iter().any(|c| matches!(c, DeviceCommand::DestroyView { name } if name == "gbuffer")));
    assert!(!commands.iter().any(|c| matches!(c, DeviceCommand::DestroyTexture { .. })));
    assert_eq!(pmfx.get_view("gbuffer").unwrap().hash, 21);
}

#[test]
fn camera_constants_and_errors() {
    let mut pmfx = loaded();
    assert!(matches!(pmfx.get_camera_constants("main"), Err(PmfxError::NotFound { kind: Missing::Camera, .. })));
    pmfx.update_camera_constants("main", 5);
    pmfx.update_camera_constants("main", 6);
    assert_eq!(*pmfx.get_camera_constants("main").unwrap(), 6);
    pmfx.log_error("gbuffer", "first");
    pmfx.log_error("gbuffer", "second");
    assert_eq!(pmfx.view_errors.get(&"gbuffer".to_string()).map(|s| s.as_str()), Some("first"));
    let e = PmfxError::NotFound { kind: Missing::View, name: "x".to_string() };
    assert_eq!(e.message(), "could not find: x");
}

#[test]
fn info_from_state_defaults() {
    let mut map = NameMap::new();
    map.insert("fast".to_string(), 3u32);
    assert_eq!(info_from_state(&Some("fast".to_string()), &map), 3);
    assert_eq!(info_from_state(&Some("slow".to_string()), &map), 0);
    assert_eq!(info_from_state(&None, &map), 0);
}

#[test]
fn texture_description_follows_usage() {
    let info = texture(None, 4, vec![ResourceState::DepthStencil, ResourceState::RenderTarget], 1);
    let desc = to_gfx_texture_info(&info, (64, 1));
    assert_eq!(desc.tex_type, TextureType::Texture1D);
    assert_eq!(desc.initial_state, ResourceState::DepthStencil);
    assert!(desc.usage.depth_stencil && desc.usage.render_target && !desc.usage.shader_resource);
    let desc = to_gfx_texture_info(&texture(None, 1, sampled_target(), 1), (64, 64));
    assert_eq!(desc.tex_type, TextureType::Texture2D);
    assert_eq!(desc.initial_state, ResourceState::ShaderResource);
    let mut deep = texture(None, 1, Vec::new(), 1);
    deep.depth = 4;
    let desc = to_gfx_texture_info(&deep, (8, 8));
    assert_eq!(desc.tex_type, TextureType::Texture3D);
    assert_eq!(desc.initial_state, ResourceState::ShaderResource);
    assert_eq!(desc.samples, 1);
}

#[test]
fn reload_responder_follows_files() {
    let mut responder = PmfxReloadResponder::new(42);
    responder.add_file("a.json");
    responder.add_file("b.json");
    assert_eq!(responder.get_files(), names(&["a.json", "b.json"]));
    assert_eq!(responder.get_last_mtime(), 42);
}

#[test]
fn targets_with_different_sample_counts_are_an_error() {
    let mut f = PmfxFile::new();
    f.textures.insert("colour".to_string(), texture(None, 4, sampled_target(), 1));
    f.textures.insert("depth".to_string(), texture(None, 1, vec![ResourceState::DepthStencil], 2));
    f.views.insert(
        "mixed".to_string(),
        ViewInfo { render_target: names(&["colour"]), depth_stencil: names(&["depth"]), camera: String::new(), hash: 1 },
    );
    let mut pmfx: Pmfx<u32> = Pmfx::create();
    assert!(pmfx.load("mixed", "data/mixed", f, 1));
    let node = GraphViewInfo {
        view: "mixed".to_string(),
        pipelines: Vec::new(),
        function: String::new(),
        depends_on: Vec::new(),
        reads: Vec::new(),
    };
    let r = pmfx.create_view("mixed", "mixed", &node);
    assert!(matches!(r, Err(PmfxError::SampleCountMismatch { .. })));
    assert!(pmfx.get_view("mixed").is_err());
}

#[test]
fn compute_permutations_become_compute_pipelines() {
    let mut f = file(10, 20, 30);
    f.shaders.insert("blur.csc".to_string(), 9);
    f.pipelines.insert(
        "blur".to_string(),
        vec![(0, Pipeline {
            vs: None,
            ps: None,
            cs: Some("blur.csc".to_string()),
            raster_state: None,
            depth_stencil_state: None,
            topology: None,
            hash: 9,
        })],
    );
    let mut pmfx: Pmfx<u32> = Pmfx::create();
    pmfx.update_window((64, 64), "main_window").unwrap();
    assert!(pmfx.load("forward", "data/forward", f, 1));
    pmfx.create_render_graph("forward").unwrap();
    let format = pmfx.get_view("gbuffer").unwrap().format;
    assert_eq!(pmfx.get_compute_pipeline("blur"), None);
    pmfx.create_pipeline("blur", format).unwrap();
    assert_eq!(pmfx.get_compute_pipeline("blur"), Some(9));
    assert!(pmfx.get_render_pipeline_for_format("blur", format).is_err());
    // both views render one RGBA8n target without depth: they share one pass format
    assert_eq!(pmfx.get_view("lighting").unwrap().format, format);
}

#[test]
fn targets_with_different_sizes_are_an_error() {
    let mut f = PmfxFile::new();
    f.textures.insert("small".to_string(), texture(None, 1, sampled_target(), 1));
    let mut big = texture(None, 1, sampled_target(), 2);
    big.width = 512;
    f.textures.insert("big".to_string(), big);
    f.views.insert(
        "mixed".to_string(),
        ViewInfo { render_target: names(&["small", "big"]), depth_stencil: Vec::new(), camera: String::new(), hash: 1 },
    );
    let mut pmfx: Pmfx<u32> = Pmfx::create();
    assert!(pmfx.load("mixed", "data/mixed", f, 1));
    let node = GraphViewInfo {
        view: "mixed".to_string(),
        pipelines: Vec::new(),
        function: String::new(),
        depends_on: Vec::new(),
        reads: Vec::new(),
    };
    let r = pmfx.create_view("mixed", "mixed", &node);
    assert!(matches!(r, Err(PmfxError::SizeMismatch { .. })));
    assert_eq!(e_message(r), "render targets have different sizes in view: mixed");
}

fn e_message(r: Result<(), PmfxError>) -> String {
    match r {
        Err(e) => e.message(),
        Ok(()) => String::new(),
    }
}

#[test]
fn view_records_the_textures_it_renders_to() {
    let mut pmfx = loaded();
    pmfx.create_render_graph("forward").unwrap();
    assert_eq!(pmfx.get_view_texture_refs("albedo"), names(&["gbuffer"]));
    assert_eq!(pmfx.get_view_texture_refs("lit"), names(&["lighting"]));
}

#[test]
fn reload_keeps_unchanged_permutations() {
    let make = |hash0: u64, hash1: u64| {
        let mut f = file(10, 20, 30);
        f.shaders.insert("mesh.vsc".to_string(), 30);
        f.pipelines.insert(
            "mesh".to_string(),
            vec![
                (0, Pipeline { vs: Some("mesh.vsc".to_string()), ps: None, cs: None, raster_state: None, depth_stencil_state: None, topology: None, hash: hash0 }),
                (1, Pipeline { vs: Some("mesh.vsc".to_string()), ps: None, cs: None, raster_state: None, depth_stencil_state: None, topology: None, hash: hash1 }),
            ],
        );
        f
    };
    let mut pmfx: Pmfx<u32> = Pmfx::create();
    pmfx.update_window((800, 600), "main_window").unwrap();
    assert!(pmfx.load("forward", "data/forward", make(5, 6), 100));
    pmfx.create_render_graph("forward").unwrap();
    pmfx.take_commands();
    pmfx.reload("forward", make(5, 7), 200).unwrap();
    let commands = pmfx.take_commands();
    assert!(commands.iter().any(|c| matches!(c, DeviceCommand::DestroyRenderPipeline { permutation: 1, .. })));
    assert!(!commands.iter().any(|c| matches!(c, DeviceCommand::DestroyRenderPipeline { permutation: 0, .. })));
    assert!(!commands.iter().any(|c| matches!(c, DeviceCommand::CreateRenderPipeline { permutation: 0, .. })));
    assert!(commands.iter().any(|c| matches!(c, DeviceCommand::CreateRenderPipeline { permutation: 1, .. })));
    assert!(!commands.iter().any(|c| matches!(c, DeviceCommand::DestroyTexture { .. } | DeviceCommand::DestroyView { .. })));
    let format = pmfx.get_view("gbuffer").unwrap().format;
    assert_eq!(pmfx.get_render_pipeline_permutation_for_format("mesh", 0, format).ok(), Some(5));
    assert_eq!(pmfx.get_render_pipeline_permutation_for_format("mesh", 1, format).ok(), Some(7));
}
