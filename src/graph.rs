//! Render-graph compilation: orders graph nodes by their dependencies and inserts the
//! resource-state transitions each node needs, producing one linear submission order.
use vstd::prelude::*;
use crate::data::{GraphViewInfo, ResourceState, ViewInfo};
use crate::error::PmfxError;
use crate::names::{has_key, NameMap};
use vstd::string::StringExecFns;

verus! {

/// An entry of a compiled submission order, as a mathematical value.
pub enum Step {
    /// Transition of `texture` from `before` to `after`, recorded for `view`.
    Barrier { view: Seq<char>, texture: Seq<char>, before: ResourceState, after: ResourceState },
    /// Resolve of multisampled `texture`: its main resource goes to `ResolveSrc`, its
    /// resolve resource is resolved into and left in `target`.
    Resolve { view: Seq<char>, texture: Seq<char>, before: ResourceState, target: ResourceState },
    /// Submission of the graph node's own command buffer.
    Node { name: Seq<char> },
}

/// An entry of a compiled submission order.
#[derive(Clone, Debug)]
pub enum GraphEntry {
    Barrier { view: String, texture: String, before: ResourceState, after: ResourceState },
    Resolve { view: String, texture: String, before: ResourceState, target: ResourceState },
    Node { name: String },
}

impl View for GraphEntry {
    type V = Step;

    open spec fn view(&self) -> Step {
        match self {
            GraphEntry::Barrier { view, texture, before, after } => Step::Barrier {
                view: view@,
                texture: texture@,
                before: *before,
                after: *after,
            },
            GraphEntry::Resolve { view, texture, before, target } => Step::Resolve {
                view: view@,
                texture: texture@,
                before: *before,
                target: *target,
            },
            GraphEntry::Node { name } => Step::Node { name: name@ },
        }
    }
}

/// Resource states of the textures that need transitions, by texture name.
pub type Tracking = Map<Seq<char>, ResourceState>;

pub open spec fn steps_of(v: Seq<GraphEntry>) -> Seq<Step> {
    v.map_values(|e: GraphEntry| e@)
}

pub open spec fn names_of(v: Seq<String>) -> Seq<Seq<char>> {
    v.map_values(|s: String| s@)
}

/// A transition of a texture in the state map to `target`, emitted only when its state differs.
pub open spec fn transition_step(
    track: Tracking,
    view: Seq<char>,
    tex: Seq<char>,
    target: ResourceState,
) -> (Seq<Step>, Tracking) {
    if track.contains_key(tex) && track[tex] != target {
        (
            seq![Step::Barrier { view, texture: tex, before: track[tex], after: target }],
            track.insert(tex, target),
        )
    } else {
        (Seq::empty(), track)
    }
}

/// Transitions of each of `texs` in turn.
pub open spec fn transitions(
    track: Tracking,
    view: Seq<char>,
    texs: Seq<Seq<char>>,
    target: ResourceState,
) -> (Seq<Step>, Tracking)
    decreases texs.len(),
{
    if texs.len() == 0 {
        (Seq::empty(), track)
    } else {
        let r = transitions(track, view, texs.drop_last(), target);
        let s = transition_step(r.1, view, texs.last(), target);
        (r.0 + s.0, s.1)
    }
}

/// What one scheduled node contributes: its sampled textures are resolved if resolvable
/// and go to shader-resource state,
/// its render targets and depth stencils to their write states, then the node itself.
pub open spec fn node_steps(
    track: Tracking,
    name: Seq<char>,
    node: GraphViewInfo,
    info: ViewInfo,
    resolvable: Seq<Seq<char>>,
) -> (Seq<Step>, Tracking) {
    let r = sample_steps(track, node.view@, names_of(node.reads@), resolvable);
    let w = transitions(r.1, node.view@, names_of(info.render_target@), ResourceState::RenderTarget);
    let d = transitions(w.1, node.view@, names_of(info.depth_stencil@), ResourceState::DepthStencil);
    (r.0 + w.0 + d.0 + seq![Step::Node { name }], d.1)
}

/// The steps of the nodes of `order`, in order.
pub open spec fn nodes_steps(
    g: Seq<(String, GraphViewInfo)>,
    views: Map<Seq<char>, ViewInfo>,
    order: Seq<int>,
    track: Tracking,
    resolvable: Seq<Seq<char>>,
) -> (Seq<Step>, Tracking)
    decreases order.len(),
{
    if order.len() == 0 {
        (Seq::empty(), track)
    } else {
        let r = nodes_steps(g, views, order.drop_last(), track, resolvable);
        let i = order.last();
        let s = node_steps(r.1, g[i].0@, g[i].1, views[g[i].1.view@], resolvable);
        (r.0 + s.0, s.1)
    }
}

/// The name recorded on end-of-frame transitions.
pub open spec fn eof_name() -> Seq<char> {
    "eof"@
}

/// A resolve of `tex`, emitted whenever it is resolvable and its state is followed.
pub open spec fn resolve_step(
    track: Tracking,
    view: Seq<char>,
    tex: Seq<char>,
    target: ResourceState,
    resolvable: bool,
) -> (Seq<Step>, Tracking) {
    if resolvable && track.contains_key(tex) {
        (
            seq![Step::Resolve { view, texture: tex, before: track[tex], target }],
            track.insert(tex, ResourceState::ResolveSrc),
        )
    } else {
        (Seq::empty(), track)
    }
}

/// Making one texture ready for sampling: resolve it if it is multisampled, then move it
/// to shader-resource state. Recorded for `view`.
pub open spec fn sample_step(track: Tracking, view: Seq<char>, tex: Seq<char>, resolvable: Seq<Seq<char>>) -> (
    Seq<Step>,
    Tracking,
) {
    let r = resolve_step(track, view, tex, ResourceState::ShaderResource, resolvable.contains(tex));
    let s = transition_step(r.1, view, tex, ResourceState::ShaderResource);
    (r.0 + s.0, s.1)
}

/// `sample_step` for each of `texs` in turn.
pub open spec fn sample_steps(track: Tracking, view: Seq<char>, texs: Seq<Seq<char>>, resolvable: Seq<Seq<char>>) -> (
    Seq<Step>,
    Tracking,
)
    decreases texs.len(),
{
    if texs.len() == 0 {
        (Seq::empty(), track)
    } else {
        let r = sample_steps(track, view, texs.drop_last(), resolvable);
        let s = sample_step(r.1, view, texs.last(), resolvable);
        (r.0 + s.0, s.1)
    }
}

/// End-of-frame handling of one texture in the state map: resolve if multisampled, then back to
/// shader-resource state.
pub open spec fn eof_step(track: Tracking, tex: Seq<char>, resolvable: Seq<Seq<char>>) -> (
    Seq<Step>,
    Tracking,
) {
    sample_step(track, eof_name(), tex, resolvable)
}

pub open spec fn eof_steps(track: Tracking, texs: Seq<Seq<char>>, resolvable: Seq<Seq<char>>) -> (
    Seq<Step>,
    Tracking,
) {
    sample_steps(track, eof_name(), texs, resolvable)
}

/// Some node of `sched` is named `d`.
pub open spec fn scheduled_name(g: Seq<(String, GraphViewInfo)>, sched: Seq<int>, d: Seq<char>) -> bool {
    exists|k: int| 0 <= k < sched.len() && #[trigger] g[sched[k]].0@ == d
}

/// A dependency holds once its node is scheduled; one that names no node of the
/// graph is ignored.
pub open spec fn dep_satisfied(g: Seq<(String, GraphViewInfo)>, sched: Seq<int>, d: Seq<char>) -> bool {
    !has_key(g, d) || scheduled_name(g, sched, d)
}

/// Node `i` can be scheduled after `sched`: its view exists, it is not scheduled yet,
/// and all its dependencies hold.
pub open spec fn ready(
    g: Seq<(String, GraphViewInfo)>,
    views: Map<Seq<char>, ViewInfo>,
    sched: Seq<int>,
    i: int,
) -> bool {
    &&& views.contains_key(g[i].1.view@)
    &&& !sched.contains(i)
    &&& forall|j: int|
        0 <= j < g[i].1.depends_on@.len() ==> dep_satisfied(g, sched, #[trigger] g[i].1.depends_on@[j]@)
}

/// One pass over the first `n` nodes, scheduling each ready node as it is met.
pub open spec fn pass(
    g: Seq<(String, GraphViewInfo)>,
    views: Map<Seq<char>, ViewInfo>,
    sched: Seq<int>,
    n: int,
) -> Seq<int>
    decreases n,
{
    if n <= 0 {
        sched
    } else {
        let s = pass(g, views, sched, n - 1);
        if ready(g, views, s, n - 1) {
            s.push(n - 1)
        } else {
            s
        }
    }
}

/// Repeated passes until one schedules nothing (at most `fuel` passes).
pub open spec fn schedule_from(
    g: Seq<(String, GraphViewInfo)>,
    views: Map<Seq<char>, ViewInfo>,
    sched: Seq<int>,
    fuel: nat,
) -> Seq<int>
    decreases fuel,
{
    if fuel == 0 {
        sched
    } else {
        let next = pass(g, views, sched, g.len() as int);
        if next.len() == sched.len() {
            sched
        } else {
            schedule_from(g, views, next, (fuel - 1) as nat)
        }
    }
}

/// The order in which the nodes of a graph are scheduled (positions in the graph).
pub open spec fn schedule(g: Seq<(String, GraphViewInfo)>, views: Map<Seq<char>, ViewInfo>) -> Seq<int> {
    schedule_from(g, views, Seq::empty(), (g.len() + 1) as nat)
}

/// The full submission order of a graph.
pub open spec fn compile(
    g: Seq<(String, GraphViewInfo)>,
    views: Map<Seq<char>, ViewInfo>,
    track: Tracking,
    eof_textures: Seq<Seq<char>>,
    resolvable: Seq<Seq<char>>,
) -> Seq<Step> {
    let n = nodes_steps(g, views, schedule(g, views), track, resolvable);
    let e = eof_steps(n.1, eof_textures, resolvable);
    n.0 + e.0
}

/// Positions as integers.
pub open spec fn ints(s: Seq<usize>) -> Seq<int> {
    s.map_values(|x: usize| x as int)
}

/// Emits a transition of `texture_name` to `target` if its recorded state differs, and
/// records the new state.
pub fn create_texture_transition_barrier(
    entries: &mut Vec<GraphEntry>,
    track: &mut NameMap<ResourceState>,
    view_name: &String,
    texture_name: &String,
    target: ResourceState,
)
    requires
        old(track).wf(),
    ensures
        final(track).wf(),
        final(track).key_seq() == old(track).key_seq(),
        steps_of(final(entries)@) == steps_of(old(entries)@)
            + transition_step(old(track)@, view_name@, texture_name@, target).0,
        final(track)@ == transition_step(old(track)@, view_name@, texture_name@, target).1,
{
    let ghost s = transition_step(old(track)@, view_name@, texture_name@, target);
    match track.get(texture_name) {
        Some(state) => {
            let state = *state;
            if state != target {
                entries.push(
                    GraphEntry::Barrier {
                        view: view_name.clone(),
                        texture: texture_name.clone(),
                        before: state,
                        after: target,
                    },
                );
                track.insert(texture_name.clone(), target);
                assert(steps_of(entries@) =~= steps_of(old(entries)@) + s.0);
            } else {
                assert(steps_of(entries@) =~= steps_of(old(entries)@) + s.0);
            }
        },
        None => {
            assert(steps_of(entries@) =~= steps_of(old(entries)@) + s.0);
        },
    }
}

/// Emits a resolve of multisampled `texture_name` into its resolve resource, left in
/// `target` state; its main resource goes to resolve-source state. Fails, changing
/// nothing, when the texture is not resolvable.
pub fn create_resolve_transition(
    entries: &mut Vec<GraphEntry>,
    track: &mut NameMap<ResourceState>,
    view_name: &String,
    texture_name: &String,
    target: ResourceState,
    resolvable: bool,
) -> (r: Result<(), PmfxError>)
    requires
        old(track).wf(),
    ensures
        final(track).wf(),
        final(track).key_seq() == old(track).key_seq(),
        r is Err <==> old(track)@.contains_key(texture_name@) && !resolvable,
        r matches Err(e) ==> e matches PmfxError::ResolveIncompatible { texture } && texture@ == texture_name@,
        steps_of(final(entries)@) == steps_of(old(entries)@)
            + resolve_step(old(track)@, view_name@, texture_name@, target, resolvable).0,
        final(track)@ == resolve_step(old(track)@, view_name@, texture_name@, target, resolvable).1,
{
    let ghost s = resolve_step(old(track)@, view_name@, texture_name@, target, resolvable);
    match track.get(texture_name) {
        Some(state) => {
            let state = *state;
            if !resolvable {
                assert(steps_of(entries@) =~= steps_of(old(entries)@) + s.0);
                return Err(PmfxError::ResolveIncompatible { texture: texture_name.clone() });
            }
            entries.push(
                GraphEntry::Resolve {
                    view: view_name.clone(),
                    texture: texture_name.clone(),
                    before: state,
                    target,
                },
            );
            track.insert(texture_name.clone(), ResourceState::ResolveSrc);
            assert(steps_of(entries@) =~= steps_of(old(entries)@) + s.0);
            Ok(())
        },
        None => {
            assert(steps_of(entries@) =~= steps_of(old(entries)@) + s.0);
            Ok(())
        },
    }
}

/// Transitions of each of `textures` to `target`, in order.
fn transition_all(
    entries: &mut Vec<GraphEntry>,
    track: &mut NameMap<ResourceState>,
    view_name: &String,
    textures: &Vec<String>,
    target: ResourceState,
)
    requires
        old(track).wf(),
    ensures
        final(track).wf(),
        final(track).key_seq() == old(track).key_seq(),
        steps_of(final(entries)@) == steps_of(old(entries)@)
            + transitions(old(track)@, view_name@, names_of(textures@), target).0,
        final(track)@ == transitions(old(track)@, view_name@, names_of(textures@), target).1,
{
    let ghost e0 = steps_of(old(entries)@);
    let ghost t0 = old(track)@;
    let mut i: usize = 0;
    while i < textures.len()
        invariant
            i <= textures@.len(),
            track.wf(),
            track.key_seq() == old(track).key_seq(),
            steps_of(entries@) == e0 + transitions(t0, view_name@, names_of(textures@).take(i as int), target).0,
            track@ == transitions(t0, view_name@, names_of(textures@).take(i as int), target).1,
        decreases textures@.len() - i,
    {
        let ghost before = steps_of(entries@);
        create_texture_transition_barrier(entries, track, view_name, &textures[i], target);
        proof {
            let names = names_of(textures@);
            assert(names.take(i + 1).drop_last() =~= names.take(i as int));
            assert(names.take(i + 1).last() == textures@[i as int]@);
            let r = transitions(t0, view_name@, names.take(i as int), target);
            let st = transition_step(r.1, view_name@, textures@[i as int]@, target);
            assert(steps_of(entries@) =~= e0 + (r.0 + st.0));
        }
        i += 1;
    }
    proof {
        assert(names_of(textures@).take(textures@.len() as int) =~= names_of(textures@));
    }
}

/// Makes each of `textures` ready for sampling, in order: resolved if resolvable, then in
/// shader-resource state.
fn sample_all(
    entries: &mut Vec<GraphEntry>,
    track: &mut NameMap<ResourceState>,
    view_name: &String,
    textures: &Vec<String>,
    resolvable: &Vec<String>,
)
    requires
        old(track).wf(),
    ensures
        final(track).wf(),
        final(track).key_seq() == old(track).key_seq(),
        steps_of(final(entries)@) == steps_of(old(entries)@)
            + sample_steps(old(track)@, view_name@, names_of(textures@), names_of(resolvable@)).0,
        final(track)@ == sample_steps(old(track)@, view_name@, names_of(textures@), names_of(resolvable@)).1,
{
    let ghost e0 = steps_of(old(entries)@);
    let ghost t0 = old(track)@;
    let ghost res = names_of(resolvable@);
    let mut i: usize = 0;
    while i < textures.len()
        invariant
            i <= textures@.len(),
            track.wf(),
            track.key_seq() == old(track).key_seq(),
            res == names_of(resolvable@),
            steps_of(entries@) == e0 + sample_steps(t0, view_name@, names_of(textures@).take(i as int), res).0,
            track@ == sample_steps(t0, view_name@, names_of(textures@).take(i as int), res).1,
        decreases textures@.len() - i,
    {
        let tex = &textures[i];
        let is_resolvable = contains_name(resolvable, tex);
        let ghost e_before = steps_of(entries@);
        let ghost prev = sample_steps(t0, view_name@, names_of(textures@).take(i as int), res);
        let _ = create_resolve_transition(entries, track, view_name, tex, ResourceState::ShaderResource, is_resolvable);
        create_texture_transition_barrier(entries, track, view_name, tex, ResourceState::ShaderResource);
        proof {
            let names = names_of(textures@);
            assert(names.take(i + 1).drop_last() =~= names.take(i as int));
            assert(names.take(i + 1).last() == textures@[i as int]@);
            let st = sample_step(prev.1, view_name@, textures@[i as int]@, res);
            assert(steps_of(entries@) =~= e_before + st.0);
            assert(steps_of(entries@) =~= e0 + (prev.0 + st.0));
        }
        i += 1;
    }
    proof {
        assert(names_of(textures@).take(textures@.len() as int) =~= names_of(textures@));
    }
}

/// Emits what one scheduled node contributes to the submission order.
fn emit_node(
    entries: &mut Vec<GraphEntry>,
    track: &mut NameMap<ResourceState>,
    name: &String,
    node: &GraphViewInfo,
    info: &ViewInfo,
    resolvable: &Vec<String>,
)
    requires
        old(track).wf(),
    ensures
        final(track).wf(),
        final(track).key_seq() == old(track).key_seq(),
        steps_of(final(entries)@) == steps_of(old(entries)@) + node_steps(old(track)@, name@, *node, *info, names_of(resolvable@)).0,
        final(track)@ == node_steps(old(track)@, name@, *node, *info, names_of(resolvable@)).1,
{
    let ghost e0 = steps_of(old(entries)@);
    let ghost r = sample_steps(old(track)@, node.view@, names_of(node.reads@), names_of(resolvable@));
    let ghost w = transitions(r.1, node.view@, names_of(info.render_target@), ResourceState::RenderTarget);
    let ghost d = transitions(w.1, node.view@, names_of(info.depth_stencil@), ResourceState::DepthStencil);
    sample_all(entries, track, &node.view, &node.reads, resolvable);
    assert(steps_of(entries@) == e0 + r.0);
    transition_all(entries, track, &node.view, &info.render_target, ResourceState::RenderTarget);
    assert(steps_of(entries@) == e0 + r.0 + w.0);
    transition_all(entries, track, &node.view, &info.depth_stencil, ResourceState::DepthStencil);
    let ghost e3 = steps_of(entries@);
    assert(e3 == e0 + r.0 + w.0 + d.0);
    let ghost v3 = entries@;
    let own = name.clone();
    entries.push(GraphEntry::Node { name: own });
    proof {
        assert(entries@ == v3.push(GraphEntry::Node { name: own }));
        assert(steps_of(entries@) =~= e3.push(Step::Node { name: name@ }));
        assert(steps_of(entries@) =~= e0 + (r.0 + w.0 + d.0 + seq![Step::Node { name: name@ }]));
    }
}

/// Whether `x` occurs in `v`.
fn contains_index(v: &Vec<usize>, x: usize) -> (r: bool)
    ensures
        r == ints(v@).contains(x as int),
{
    let mut i: usize = 0;
    while i < v.len()
        invariant
            i <= v@.len(),
            forall|j: int| 0 <= j < i ==> v@[j] != x,
        decreases v@.len() - i,
    {
        if v[i] == x {
            assert(ints(v@)[i as int] == x as int);
            return true;
        }
        i += 1;
    }
    proof {
        if ints(v@).contains(x as int) {
            let j = choose|j: int| 0 <= j < ints(v@).len() && ints(v@)[j] == x as int;
            assert(v@[j] == x);
        }
    }
    false
}

/// Whether a dependency named `d` holds after `sched`.
fn dependency_holds(graph: &NameMap<GraphViewInfo>, sched: &Vec<usize>, d: &String) -> (r: bool)
    requires
        graph.wf(),
        forall|k: int| 0 <= k < sched@.len() ==> sched@[k] < graph.entries().len(),
    ensures
        r == dep_satisfied(graph.entries(), ints(sched@), d@),
{
    if !graph.contains_key(d) {
        return true;
    }
    let mut k: usize = 0;
    while k < sched.len()
        invariant
            k <= sched@.len(),
            forall|k: int| 0 <= k < sched@.len() ==> sched@[k] < graph.entries().len(),
            forall|j: int| 0 <= j < k ==> graph.entries()[sched@[j] as int].0@ != d@,
        decreases sched@.len() - k,
    {
        if *graph.key_at(sched[k]) == *d {
            assert(ints(sched@)[k as int] == sched@[k as int] as int);
            assert(graph.entries()[ints(sched@)[k as int]].0@ == d@);
            return true;
        }
        k += 1;
    }
    proof {
        if scheduled_name(graph.entries(), ints(sched@), d@) {
            let j = choose|j: int| 0 <= j < ints(sched@).len() && #[trigger] graph.entries()[ints(sched@)[j]].0@ == d@;
            assert(ints(sched@)[j] == sched@[j] as int);
        }
    }
    false
}

/// Whether node `i` can be scheduled after `sched`.
fn node_ready(
    graph: &NameMap<GraphViewInfo>,
    views: &NameMap<ViewInfo>,
    sched: &Vec<usize>,
    i: usize,
) -> (r: bool)
    requires
        graph.wf(),
        views.wf(),
        i < graph.entries().len(),
        forall|k: int| 0 <= k < sched@.len() ==> sched@[k] < graph.entries().len(),
    ensures
        r == ready(graph.entries(), views@, ints(sched@), i as int),
{
    let node = graph.value_at(i);
    if !views.contains_key(&node.view) {
        return false;
    }
    if contains_index(sched, i) {
        return false;
    }
    let mut j: usize = 0;
    while j < node.depends_on.len()
        invariant
            graph.wf(),
            j <= node.depends_on@.len(),
            *node == graph.entries()[i as int].1,
            forall|k: int| 0 <= k < sched@.len() ==> sched@[k] < graph.entries().len(),
            forall|jj: int|
                0 <= jj < j ==> dep_satisfied(graph.entries(), ints(sched@), #[trigger] node.depends_on@[jj]@),
        decreases node.depends_on@.len() - j,
    {
        if !dependency_holds(graph, sched, &node.depends_on[j]) {
            return false;
        }
        j += 1;
    }
    true
}

/// One pass over all nodes, scheduling each ready node as it is met.
fn schedule_pass(graph: &NameMap<GraphViewInfo>, views: &NameMap<ViewInfo>, sched: Vec<usize>) -> (r: Vec<usize>)
    requires
        graph.wf(),
        views.wf(),
        forall|k: int| 0 <= k < sched@.len() ==> sched@[k] < graph.entries().len(),
    ensures
        ints(r@) == pass(graph.entries(), views@, ints(sched@), graph.entries().len() as int),
        forall|k: int| 0 <= k < r@.len() ==> r@[k] < graph.entries().len(),
{
    let ghost s0 = ints(sched@);
    let mut s = sched;
    let mut i: usize = 0;
    while i < graph.len()
        invariant
            graph.wf(),
            views.wf(),
            i <= graph.entries().len(),
            ints(s@) == pass(graph.entries(), views@, s0, i as int),
            forall|k: int| 0 <= k < s@.len() ==> s@[k] < graph.entries().len(),
        decreases graph.entries().len() - i,
    {
        if node_ready(graph, views, &s, i) {
            s.push(i);
            assert(ints(s@) =~= pass(graph.entries(), views@, s0, i as int).push(i as int));
        }
        i += 1;
    }
    s
}

/// The order in which the nodes of `graph` are scheduled: passes are repeated until one
/// schedules nothing, so nodes caught in a cycle, or waiting on a node that can never be
/// scheduled, are left out instead of being waited on forever.
pub fn schedule_nodes(graph: &NameMap<GraphViewInfo>, views: &NameMap<ViewInfo>) -> (r: Vec<usize>)
    requires
        graph.wf(),
        views.wf(),
    ensures
        ints(r@) == schedule(graph.entries(), views@),
        forall|k: int| 0 <= k < r@.len() ==> r@[k] < graph.entries().len(),
{
    let ghost g = graph.entries();
    let mut sched: Vec<usize> = Vec::new();
    let n = graph.len();
    let mut remaining: usize = n;
    assert(ints(sched@) =~= Seq::<int>::empty());
    loop
        invariant
            graph.wf(),
            views.wf(),
            n == g.len(),
            g == graph.entries(),
            remaining <= n,
            schedule_from(g, views@, ints(sched@), (remaining + 1) as nat) == schedule(g, views@),
            forall|k: int| 0 <= k < sched@.len() ==> sched@[k] < g.len(),
        decreases remaining,
    {
        let copy = sched.clone();
        assert(copy@ =~= sched@);
        let next = schedule_pass(graph, views, copy);
        assert(ints(next@).len() == next@.len() && ints(sched@).len() == sched@.len());
        if next.len() == sched.len() {
            assert(schedule_from(g, views@, ints(sched@), (remaining + 1) as nat) == ints(sched@));
            return sched;
        }
        let ghost prev = ints(sched@);
        sched = next;
        assert(schedule_from(g, views@, prev, (remaining + 1) as nat)
            == schedule_from(g, views@, ints(sched@), remaining as nat));
        if remaining == 0 {
            return sched;
        }
        remaining -= 1;
    }
}

/// A compiled render graph: the submission order and what was left out along the way.
pub struct CompiledGraph {
    /// Barriers and nodes in submission order.
    pub entries: Vec<GraphEntry>,
    /// Nodes that were not scheduled: their view is missing, or their dependencies never hold.
    pub unscheduled: Vec<String>,
    /// Pairs of node and dependency where the dependency names no node of the graph.
    pub missing_dependencies: Vec<(String, String)>,
    /// Textures whose end-of-frame resolve failed because they have no resolve resource.
    pub resolve_errors: Vec<String>,
}

/// Each node of `order` comes after every node of the graph that one of its dependencies
/// names.
pub open spec fn deps_first(g: Seq<(String, GraphViewInfo)>, order: Seq<int>) -> bool {
    forall|k: int, j: int|
        0 <= k < order.len() && 0 <= j < g[order[k]].1.depends_on@.len() && has_key(g, #[trigger] g[order[k]].1.depends_on@[j]@)
            ==> exists|k2: int| 0 <= k2 < k && #[trigger] g[order[k2]].0@ == g[order[k]].1.depends_on@[j]@
}

proof fn lemma_pass_deps_first(g: Seq<(String, GraphViewInfo)>, views: Map<Seq<char>, ViewInfo>, s: Seq<int>, n: int)
    requires
        deps_first(g, s),
    ensures
        deps_first(g, pass(g, views, s, n)),
    decreases n,
{
    if n > 0 {
        lemma_pass_deps_first(g, views, s, n - 1);
        let s1 = pass(g, views, s, n - 1);
        if ready(g, views, s1, n - 1) {
            let s2 = s1.push(n - 1);
            assert forall|k: int, j: int|
                0 <= k < s2.len() && 0 <= j < g[s2[k]].1.depends_on@.len() && has_key(g, #[trigger] g[s2[k]].1.depends_on@[j]@)
                implies exists|k2: int| 0 <= k2 < k && #[trigger] g[s2[k2]].0@ == g[s2[k]].1.depends_on@[j]@ by {
                if k < s1.len() {
                    assert(s2[k] == s1[k]);
                    let k2 = choose|k2: int| 0 <= k2 < k && #[trigger] g[s1[k2]].0@ == g[s1[k]].1.depends_on@[j]@;
                    assert(s2[k2] == s1[k2]);
                } else {
                    let d = g[n - 1].1.depends_on@[j]@;
                    assert(dep_satisfied(g, s1, d));
                    let k2 = choose|k2: int| 0 <= k2 < s1.len() && #[trigger] g[s1[k2]].0@ == d;
                    assert(s2[k2] == s1[k2]);
                }
            }
        }
    }
}

proof fn lemma_schedule_from_deps_first(g: Seq<(String, GraphViewInfo)>, views: Map<Seq<char>, ViewInfo>, s: Seq<int>, fuel: nat)
    requires
        deps_first(g, s),
    ensures
        deps_first(g, schedule_from(g, views, s, fuel)),
    decreases fuel,
{
    if fuel > 0 {
        lemma_pass_deps_first(g, views, s, g.len() as int);
        lemma_schedule_from_deps_first(g, views, pass(g, views, s, g.len() as int), (fuel - 1) as nat);
    }
}

/// In the schedule of a graph, every node comes after each node of the graph that one of
/// its dependencies names.
pub proof fn lemma_schedule_deps_first(g: Seq<(String, GraphViewInfo)>, views: Map<Seq<char>, ViewInfo>)
    ensures
        deps_first(g, schedule(g, views)),
{
    lemma_schedule_from_deps_first(g, views, Seq::empty(), (g.len() + 1) as nat);
}

/// Names of the nodes among the first `n` that `order` leaves out, in graph order.
pub open spec fn unscheduled_of(g: Seq<(String, GraphViewInfo)>, order: Seq<int>, n: int) -> Seq<Seq<char>>
    decreases n,
{
    if n <= 0 {
        Seq::empty()
    } else if order.contains(n - 1) {
        unscheduled_of(g, order, n - 1)
    } else {
        unscheduled_of(g, order, n - 1).push(g[n - 1].0@)
    }
}

/// Pairs of `node` and each of the first `m` of `deps` that names no node of the graph.
pub open spec fn missing_in(g: Seq<(String, GraphViewInfo)>, node: Seq<char>, deps: Seq<String>, m: int) -> Seq<
    (Seq<char>, Seq<char>),
>
    decreases m,
{
    if m <= 0 {
        Seq::empty()
    } else if has_key(g, deps[m - 1]@) {
        missing_in(g, node, deps, m - 1)
    } else {
        missing_in(g, node, deps, m - 1).push((node, deps[m - 1]@))
    }
}

/// Dangling dependencies of the first `n` nodes, in graph order.
pub open spec fn missing_deps_of(g: Seq<(String, GraphViewInfo)>, n: int) -> Seq<(Seq<char>, Seq<char>)>
    decreases n,
{
    if n <= 0 {
        Seq::empty()
    } else {
        missing_deps_of(g, n - 1) + missing_in(g, g[n - 1].0@, g[n - 1].1.depends_on@, g[n - 1].1.depends_on@.len() as int)
    }
}

/// The first `n` of `texs` that are not resolvable.
pub open spec fn unresolvable_of(texs: Seq<Seq<char>>, resolvable: Seq<Seq<char>>, n: int) -> Seq<Seq<char>>
    decreases n,
{
    if n <= 0 {
        Seq::empty()
    } else if resolvable.contains(texs[n - 1]) {
        unresolvable_of(texs, resolvable, n - 1)
    } else {
        unresolvable_of(texs, resolvable, n - 1).push(texs[n - 1])
    }
}

/// Every node of a pass is a position of the graph whose view exists.
pub open spec fn valid_order(g: Seq<(String, GraphViewInfo)>, views: Map<Seq<char>, ViewInfo>, s: Seq<int>) -> bool {
    forall|k: int| 0 <= k < s.len() ==> 0 <= #[trigger] s[k] < g.len() && views.contains_key(g[s[k]].1.view@)
}

pub proof fn lemma_pass_valid(g: Seq<(String, GraphViewInfo)>, views: Map<Seq<char>, ViewInfo>, s: Seq<int>, n: int)
    requires
        valid_order(g, views, s),
        n <= g.len(),
    ensures
        valid_order(g, views, pass(g, views, s, n)),
    decreases n,
{
    if n > 0 {
        lemma_pass_valid(g, views, s, n - 1);
    }
}

pub proof fn lemma_schedule_valid(
    g: Seq<(String, GraphViewInfo)>,
    views: Map<Seq<char>, ViewInfo>,
    s: Seq<int>,
    fuel: nat,
)
    requires
        valid_order(g, views, s),
    ensures
        valid_order(g, views, schedule_from(g, views, s, fuel)),
    decreases fuel,
{
    if fuel > 0 {
        lemma_pass_valid(g, views, s, g.len() as int);
        lemma_schedule_valid(g, views, pass(g, views, s, g.len() as int), (fuel - 1) as nat);
    }
}

/// Whether `name` occurs in `names`.
pub fn contains_name(names: &Vec<String>, name: &String) -> (r: bool)
    ensures
        r == names_of(names@).contains(name@),
{
    let mut i: usize = 0;
    while i < names.len()
        invariant
            i <= names@.len(),
            forall|j: int| 0 <= j < i ==> names@[j]@ != name@,
        decreases names@.len() - i,
    {
        if names[i] == *name {
            assert(names_of(names@)[i as int] == name@);
            return true;
        }
        i += 1;
    }
    proof {
        if names_of(names@).contains(name@) {
            let j = choose|j: int| 0 <= j < names_of(names@).len() && names_of(names@)[j] == name@;
            assert(names@[j]@ == name@);
        }
    }
    false
}

/// Compiles a render graph into one submission order.
///
/// Nodes are scheduled in repeated passes over the graph, each node once its view exists
/// and every dependency that names a node of the graph is scheduled. Before each node,
/// the textures it samples are moved to shader-resource state and the textures it writes
/// to render-target or depth-stencil state, each only if its recorded state differs. At
/// the end, every texture of `track` is resolved if resolvable and returned to
/// shader-resource state.
pub fn compile_render_graph(
    graph: &NameMap<GraphViewInfo>,
    views: &NameMap<ViewInfo>,
    track: NameMap<ResourceState>,
    resolvable: &Vec<String>,
) -> (r: CompiledGraph)
    requires
        graph.wf(),
        views.wf(),
        track.wf(),
    ensures
        steps_of(r.entries@) == compile(graph.entries(), views@, track@, track.key_seq(), names_of(resolvable@)),
        names_of(r.unscheduled@) == unscheduled_of(
            graph.entries(),
            schedule(graph.entries(), views@),
            graph.entries().len() as int,
        ),
        r.missing_dependencies@.map_values(|p: (String, String)| (p.0@, p.1@)) == missing_deps_of(
            graph.entries(),
            graph.entries().len() as int,
        ),
        names_of(r.resolve_errors@) == unresolvable_of(
            track.key_seq(),
            names_of(resolvable@),
            track.key_seq().len() as int,
        ),
{
    let ghost g = graph.entries();
    let ghost t0 = track@;
    let ghost texs = track.key_seq();
    let ghost res = names_of(resolvable@);
    let order = schedule_nodes(graph, views);
    let ghost ord = ints(order@);
    proof {
        assert(valid_order(g, views@, Seq::<int>::empty()));
        lemma_schedule_valid(g, views@, Seq::<int>::empty(), (g.len() + 1) as nat);
    }
    let mut track = track;
    let mut entries: Vec<GraphEntry> = Vec::new();
    let mut k: usize = 0;
    assert(steps_of(entries@) =~= Seq::<Step>::empty());
    while k < order.len()
        invariant
            graph.wf(),
            views.wf(),
            track.wf(),
            g == graph.entries(),
            ord == ints(order@),
            ord == schedule(g, views@),
            valid_order(g, views@, ord),
            track.key_seq() == texs,
            k <= order@.len(),
            steps_of(entries@) == nodes_steps(g, views@, ord.take(k as int), t0, res).0,
            track@ == nodes_steps(g, views@, ord.take(k as int), t0, res).1,
            res == names_of(resolvable@),
        decreases order@.len() - k,
    {
        let i = order[k];
        assert(ord[k as int] == i as int);
        let node = graph.value_at(i);
        let name = graph.key_at(i);
        proof {
            graph.lemma_entry(i as int);
        }
        match views.get(&node.view) {
            Some(info) => {
                let ghost before = nodes_steps(g, views@, ord.take(k as int), t0, res);
                emit_node(&mut entries, &mut track, name, node, info, resolvable);
                proof {
                    assert(ord.take(k + 1).drop_last() =~= ord.take(k as int));
                    assert(ord.take(k + 1).last() == i as int);
                    assert(steps_of(entries@) =~= before.0 + node_steps(before.1, g[i as int].0@, g[i as int].1, views@[g[i as int].1.view@], res).0);
                }
            },
            None => {
                assert(false);
            },
        }
        k += 1;
    }
    assert(ord.take(order@.len() as int) =~= ord);
    let ghost mid = nodes_steps(g, views@, ord, t0, res);
    let ghost e_nodes = steps_of(entries@);

    let keys = track.keys();
    let eof = String::from_str("eof");
    let mut resolve_errors: Vec<String> = Vec::new();
    let mut j: usize = 0;
    assert(steps_of(entries@) =~= e_nodes + eof_steps(mid.1, texs.take(0), res).0);
    assert(names_of(resolve_errors@) =~= unresolvable_of(texs, res, 0));
    proof {
        track.lemma_keys();
    }
    while j < keys.len()
        invariant
            track.wf(),
            track.key_seq() == texs,
            keys@.len() == texs.len(),
            forall|i: int| 0 <= i < keys@.len() ==> #[trigger] keys@[i]@ == texs[i],
            forall|t: Seq<char>| texs.contains(t) ==> track@.contains_key(t),
            eof@ == eof_name(),
            res == names_of(resolvable@),
            j <= keys@.len(),
            steps_of(entries@) == e_nodes + eof_steps(mid.1, texs.take(j as int), res).0,
            track@ == eof_steps(mid.1, texs.take(j as int), res).1,
            names_of(resolve_errors@) == unresolvable_of(texs, res, j as int),
        decreases keys@.len() - j,
    {
        let tex = &keys[j];
        let is_resolvable = contains_name(resolvable, tex);
        let ghost e_before = steps_of(entries@);
        let ghost prev = eof_steps(mid.1, texs.take(j as int), res);
        assert(texs.contains(texs[j as int]));
        let attempt = create_resolve_transition(
            &mut entries,
            &mut track,
            &eof,
            tex,
            ResourceState::ShaderResource,
            is_resolvable,
        );
        if attempt.is_err() {
            resolve_errors.push(tex.clone());
        }
        create_texture_transition_barrier(&mut entries, &mut track, &eof, tex, ResourceState::ShaderResource);
        proof {
            assert(texs.take(j + 1).drop_last() =~= texs.take(j as int));
            assert(texs.take(j + 1).last() == texs[j as int]);
            let st = eof_step(prev.1, texs[j as int], res);
            assert(steps_of(entries@) =~= e_before + st.0);
            assert(steps_of(entries@) =~= e_nodes + (prev.0 + st.0));
            assert(names_of(resolve_errors@) =~= unresolvable_of(texs, res, j + 1));
        }
        j += 1;
    }
    assert(texs.take(keys@.len() as int) =~= texs);

    let unscheduled = unscheduled_nodes(graph, &order);
    let missing_dependencies = missing_dependencies(graph);
    CompiledGraph { entries, unscheduled, missing_dependencies, resolve_errors }
}

/// Names of the nodes that `order` leaves out, in graph order.
fn unscheduled_nodes(graph: &NameMap<GraphViewInfo>, order: &Vec<usize>) -> (r: Vec<String>)
    requires
        graph.wf(),
    ensures
        names_of(r@) == unscheduled_of(graph.entries(), ints(order@), graph.entries().len() as int),
{
    let mut r: Vec<String> = Vec::new();
    let mut i: usize = 0;
    assert(names_of(r@) =~= unscheduled_of(graph.entries(), ints(order@), 0));
    while i < graph.len()
        invariant
            graph.wf(),
            i <= graph.entries().len(),
            names_of(r@) == unscheduled_of(graph.entries(), ints(order@), i as int),
        decreases graph.entries().len() - i,
    {
        if !contains_index(order, i) {
            r.push(graph.key_at(i).clone());
        }
        assert(names_of(r@) =~= unscheduled_of(graph.entries(), ints(order@), i + 1));
        i += 1;
    }
    r
}

/// Pairs of node and dependency where the dependency names no node of the graph.
fn missing_dependencies(graph: &NameMap<GraphViewInfo>) -> (r: Vec<(String, String)>)
    requires
        graph.wf(),
    ensures
        r@.map_values(|p: (String, String)| (p.0@, p.1@)) == missing_deps_of(
            graph.entries(),
            graph.entries().len() as int,
        ),
{
    let ghost g = graph.entries();
    let mut r: Vec<(String, String)> = Vec::new();
    let mut i: usize = 0;
    assert(r@.map_values(|p: (String, String)| (p.0@, p.1@)) =~= missing_deps_of(g, 0));
    while i < graph.len()
        invariant
            graph.wf(),
            g == graph.entries(),
            i <= g.len(),
            r@.map_values(|p: (String, String)| (p.0@, p.1@)) == missing_deps_of(g, i as int),
        decreases g.len() - i,
    {
        let node = graph.value_at(i);
        let name = graph.key_at(i);
        let ghost base = missing_deps_of(g, i as int);
        let mut m: usize = 0;
        assert(r@.map_values(|p: (String, String)| (p.0@, p.1@)) =~= base + missing_in(g, name@, node.depends_on@, 0));
        while m < node.depends_on.len()
            invariant
                graph.wf(),
                g == graph.entries(),
                m <= node.depends_on@.len(),
                r@.map_values(|p: (String, String)| (p.0@, p.1@)) == base + missing_in(g, name@, node.depends_on@, m as int),
            decreases node.depends_on@.len() - m,
        {
            let d = &node.depends_on[m];
            let ghost prev = r@;
            proof {
                assert(prev.map_values(|p: (String, String)| (p.0@, p.1@)) == base + missing_in(g, name@, node.depends_on@, m as int));
            }
            if !graph.contains_key(d) {
                let pair = (name.clone(), d.clone());
                r.push(pair);
                assert(r@ == prev.push(pair));
                assert(r@.map_values(|p: (String, String)| (p.0@, p.1@)) =~= prev.map_values(|p: (String, String)| (p.0@, p.1@)).push((name@, d@)));
            }
            assert(r@.map_values(|p: (String, String)| (p.0@, p.1@)) =~= base + missing_in(g, name@, node.depends_on@, m + 1));
            m += 1;
        }
        proof {
            graph.lemma_entry(i as int);
        }
        assert(missing_deps_of(g, i + 1) == base + missing_in(g, g[i as int].0@, g[i as int].1.depends_on@, g[i as int].1.depends_on@.len() as int));
        i += 1;
    }
    r
}

} // verus!
