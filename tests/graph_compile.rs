use hotline_pmfx::data::{GraphViewInfo, ResourceState, ViewInfo};
use hotline_pmfx::graph::{
    compile_render_graph, create_resolve_transition, create_texture_transition_barrier, schedule_nodes, GraphEntry,
};
use hotline_pmfx::names::NameMap;
use hotline_pmfx::pmfx::name_of_entry;

fn names(v: &[&str]) -> Vec<String> {
    v.iter().map(|s| s.to_string()).collect()
}

fn view(targets: &[&str], depth: &[&str]) -> ViewInfo {
    ViewInfo { render_target: names(targets), depth_stencil: names(depth), camera: "main".to_string(), hash: 1 }
}

fn node(view: &str, depends_on: &[&str], reads: &[&str]) -> GraphViewInfo {
    GraphViewInfo {
        view: view.to_string(),
        pipelines: Vec::new(),
        function: format!("render_{}", view),
        depends_on: names(depends_on),
        reads: names(reads),
    }
}

fn states(v: &[&str]) -> NameMap<ResourceState> {
    let mut m = NameMap::new();
    for n in v {
        m.insert(n.to_string(), ResourceState::ShaderResource);
    }
    m
}

fn order_names(entries: &[GraphEntry]) -> Vec<String> {
    entries.iter().map(name_of_entry).collect()
}

#[test]
fn writer_then_reader_gets_both_transitions() {
    let mut views = NameMap::new();
    views.insert("gbuffer".to_string(), view(&["albedo"], &[]));
    views.insert("lighting".to_string(), view(&["lit"], &[]));
    let mut graph = NameMap::new();
    // declared reader first: the dependency decides the order
    graph.insert("lighting".to_string(), node("lighting", &["gbuffer"], &["albedo"]));
    graph.insert("gbuffer".to_string(), node("gbuffer", &[], &[]));
    let compiled = compile_render_graph(&graph, &views, states(&["albedo"]), &Vec::new());
    assert_eq!(
        order_names(&compiled.entries),
        names(&["barrier_gbuffer-albedo", "gbuffer", "barrier_lighting-albedo", "lighting"])
    );
    match &compiled.entries[0] {
        GraphEntry::Barrier { before, after, .. } => {
            assert_eq!(*before, ResourceState::ShaderResource);
            assert_eq!(*after, ResourceState::RenderTarget);
        }
        _ => panic!("expected a barrier"),
    }
    match &compiled.entries[2] {
        GraphEntry::Barrier { before, after, .. } => {
            assert_eq!(*before, ResourceState::RenderTarget);
            assert_eq!(*after, ResourceState::ShaderResource);
        }
        _ => panic!("expected a barrier"),
    }
    assert!(compiled.unscheduled.is_empty());
}

#[test]
fn written_texture_returns_to_shader_resource_at_end_of_frame() {
    let mut views = NameMap::new();
    views.insert("gbuffer".to_string(), view(&["albedo"], &["depth"]));
    let mut graph = NameMap::new();
    graph.insert("gbuffer".to_string(), node("gbuffer", &[], &[]));
    let compiled = compile_render_graph(&graph, &views, states(&["albedo", "depth"]), &Vec::new());
    assert_eq!(
        order_names(&compiled.entries),
        names(&[
            "barrier_gbuffer-albedo",
            "barrier_gbuffer-depth",
            "gbuffer",
            "barrier_eof-albedo",
            "barrier_eof-depth",
        ])
    );
}

#[test]
fn missing_dependency_is_ignored_with_a_warning() {
    let mut views = NameMap::new();
    views.insert("main".to_string(), view(&["colour"], &[]));
    let mut graph = NameMap::new();
    graph.insert("main".to_string(), node("main", &["missing_node"], &[]));
    let compiled = compile_render_graph(&graph, &views, states(&[]), &Vec::new());
    assert_eq!(order_names(&compiled.entries), names(&["main"]));
    assert_eq!(compiled.missing_dependencies, vec![("main".to_string(), "missing_node".to_string())]);
    assert!(compiled.unscheduled.is_empty());
}

#[test]
fn cycle_and_missing_view_are_left_out() {
    let mut views = NameMap::new();
    views.insert("a".to_string(), view(&[], &[]));
    views.insert("b".to_string(), view(&[], &[]));
    views.insert("c".to_string(), view(&[], &[]));
    let mut graph = NameMap::new();
    graph.insert("a".to_string(), node("a", &["b"], &[]));
    graph.insert("b".to_string(), node("b", &["a"], &[]));
    graph.insert("c".to_string(), node("c", &[], &[]));
    graph.insert("d".to_string(), node("undeclared", &[], &[]));
    let compiled = compile_render_graph(&graph, &views, states(&[]), &Vec::new());
    assert_eq!(order_names(&compiled.entries), names(&["c"]));
    assert_eq!(compiled.unscheduled, names(&["a", "b", "d"]));
}

#[test]
fn passes_repeat_until_chain_is_ordered() {
    let mut views = NameMap::new();
    for v in ["a", "b", "c"] {
        views.insert(v.to_string(), view(&[], &[]));
    }
    let mut graph = NameMap::new();
    graph.insert("c".to_string(), node("c", &["b"], &[]));
    graph.insert("b".to_string(), node("b", &["a"], &[]));
    graph.insert("a".to_string(), node("a", &[], &[]));
    assert_eq!(schedule_nodes(&graph, &views), vec![2, 1, 0]);
}

#[test]
fn consecutive_writers_need_one_barrier() {
    let mut views = NameMap::new();
    views.insert("first".to_string(), view(&["target"], &[]));
    views.insert("second".to_string(), view(&["target"], &[]));
    let mut graph = NameMap::new();
    graph.insert("first".to_string(), node("first", &[], &[]));
    graph.insert("second".to_string(), node("second", &["first"], &[]));
    let compiled = compile_render_graph(&graph, &views, states(&["target"]), &Vec::new());
    assert_eq!(
        order_names(&compiled.entries),
        names(&["barrier_first-target", "first", "second", "barrier_eof-target"])
    );
}

#[test]
fn multisampled_target_is_resolved_before_sampling() {
    let mut views = NameMap::new();
    views.insert("msaa".to_string(), view(&["colour"], &[]));
    let mut graph = NameMap::new();
    graph.insert("msaa".to_string(), node("msaa", &[], &[]));
    let compiled = compile_render_graph(&graph, &views, states(&["colour"]), &names(&["colour"]));
    assert_eq!(
        order_names(&compiled.entries),
        names(&["barrier_msaa-colour", "msaa", "barrier_resolve-eof-colour", "barrier_eof-colour"])
    );
    match &compiled.entries[3] {
        GraphEntry::Barrier { before, after, .. } => {
            assert_eq!(*before, ResourceState::ResolveSrc);
            assert_eq!(*after, ResourceState::ShaderResource);
        }
        _ => panic!("expected a barrier"),
    }
    assert!(compiled.resolve_errors.is_empty());
}

#[test]
fn unresolvable_texture_reports_error_and_still_transitions() {
    let mut views = NameMap::new();
    views.insert("main".to_string(), view(&["colour"], &[]));
    let mut graph = NameMap::new();
    graph.insert("main".to_string(), node("main", &[], &[]));
    let compiled = compile_render_graph(&graph, &views, states(&["colour"]), &Vec::new());
    assert_eq!(compiled.resolve_errors, names(&["colour"]));
    assert_eq!(order_names(&compiled.entries), names(&["barrier_main-colour", "main", "barrier_eof-colour"]));
}

#[test]
fn barrier_only_when_state_differs() {
    let mut entries = Vec::new();
    let mut track = states(&["t"]);
    let v = "v".to_string();
    let t = "t".to_string();
    create_texture_transition_barrier(&mut entries, &mut track, &v, &t, ResourceState::ShaderResource);
    assert!(entries.is_empty());
    create_texture_transition_barrier(&mut entries, &mut track, &v, &t, ResourceState::RenderTarget);
    create_texture_transition_barrier(&mut entries, &mut track, &v, &t, ResourceState::RenderTarget);
    assert_eq!(entries.len(), 1);
    // a texture that is not followed gets no barrier
    create_texture_transition_barrier(&mut entries, &mut track, &v, &"other".to_string(), ResourceState::RenderTarget);
    assert_eq!(entries.len(), 1);
}

#[test]
fn resolve_on_unresolvable_texture_is_an_error() {
    let mut entries = Vec::new();
    let mut track = states(&["t"]);
    let r = create_resolve_transition(
        &mut entries,
        &mut track,
        &"eof".to_string(),
        &"t".to_string(),
        ResourceState::ShaderResource,
        false,
    );
    assert!(matches!(r, Err(hotline_pmfx::error::PmfxError::ResolveIncompatible { .. })));
    assert!(entries.is_empty());
}

#[test]
fn sampled_multisampled_texture_is_resolved_for_the_reader() {
    let mut views = NameMap::new();
    views.insert("msaa".to_string(), view(&["colour"], &[]));
    views.insert("post".to_string(), view(&["out"], &[]));
    let mut graph = NameMap::new();
    graph.insert("msaa".to_string(), node("msaa", &[], &[]));
    graph.insert("post".to_string(), node("post", &["msaa"], &["colour"]));
    let compiled = compile_render_graph(&graph, &views, states(&["colour"]), &names(&["colour"]));
    assert_eq!(
        order_names(&compiled.entries),
        names(&[
            "barrier_msaa-colour",
            "msaa",
            "barrier_resolve-post-colour",
            "barrier_post-colour",
            "post",
            "barrier_resolve-eof-colour",
            "barrier_eof-colour",
        ])
    );
}

#[test]
fn resolvable_texture_is_resolved_at_end_of_frame_even_unwritten() {
    let views: NameMap<ViewInfo> = NameMap::new();
    let graph: NameMap<GraphViewInfo> = NameMap::new();
    let compiled = compile_render_graph(&graph, &views, states(&["colour"]), &names(&["colour"]));
    assert_eq!(order_names(&compiled.entries), names(&["barrier_resolve-eof-colour", "barrier_eof-colour"]));
}
