//! What a compiled submission order guarantees about resource states.
//!
//! Replaying the steps of a compiled graph from the initial states gives the state of
//! every texture at every point. Each barrier starts from the state in effect and changes
//! it, and every node runs with the textures it samples, renders to and depth-tests
//! against in the states those uses need.
use vstd::prelude::*;
use crate::data::{GraphViewInfo, ResourceState, ViewInfo};
use crate::graph::{
    compile, eof_step, eof_steps, names_of, node_steps, nodes_steps, resolve_step, sample_step, sample_steps,
    schedule, transition_step, transitions, valid_order, Step, Tracking, lemma_schedule_valid,
};
use crate::names::{map_of, unique_keys};

verus! {

/// The states after one step.
pub open spec fn step_effect(track: Tracking, s: Step) -> Tracking {
    match s {
        Step::Barrier { texture, after, .. } => track.insert(texture, after),
        Step::Resolve { texture, .. } => track.insert(texture, ResourceState::ResolveSrc),
        Step::Node { .. } => track,
    }
}

/// The states after a sequence of steps.
pub open spec fn replay(track: Tracking, steps: Seq<Step>) -> Tracking
    decreases steps.len(),
{
    if steps.len() == 0 {
        track
    } else {
        step_effect(replay(track, steps.drop_last()), steps.last())
    }
}

/// A barrier or resolve starts from the state in effect; a barrier also leaves it.
pub open spec fn step_ok(track: Tracking, s: Step) -> bool {
    match s {
        Step::Barrier { texture, before, after, .. } => track.contains_key(texture) && track[texture]
            == before && before != after,
        Step::Resolve { texture, before, .. } => track.contains_key(texture) && track[texture] == before,
        Step::Node { .. } => true,
    }
}

/// Every step starts from the states in effect where it stands.
pub open spec fn consistent(track: Tracking, steps: Seq<Step>) -> bool {
    forall|i: int| 0 <= i < steps.len() ==> step_ok(replay(track, steps.take(i)), #[trigger] steps[i])
}

/// The states a node needs: its depth stencils in depth-stencil state, its other render
/// targets in render-target state, and the other textures it samples in shader-resource
/// state.
pub open spec fn node_states_hold(track: Tracking, node: GraphViewInfo, info: ViewInfo) -> bool {
    forall|t: Seq<char>| #[trigger] track.contains_key(t) ==> {
        &&& names_of(info.depth_stencil@).contains(t) ==> track[t] == ResourceState::DepthStencil
        &&& (names_of(info.render_target@).contains(t) && !names_of(info.depth_stencil@).contains(t))
            ==> track[t] == ResourceState::RenderTarget
        &&& (names_of(node.reads@).contains(t) && !names_of(info.render_target@).contains(t)
            && !names_of(info.depth_stencil@).contains(t)) ==> track[t] == ResourceState::ShaderResource
    }
}

/// At every node step the node's textures are in the states it needs.
pub open spec fn nodes_ok(
    g: Seq<(String, GraphViewInfo)>,
    views: Map<Seq<char>, ViewInfo>,
    track: Tracking,
    steps: Seq<Step>,
) -> bool {
    forall|p: int|
        0 <= p < steps.len() && #[trigger] steps[p] is Node ==> node_states_hold(
            replay(track, steps.take(p)),
            map_of(g)[steps[p]->Node_name],
            views[map_of(g)[steps[p]->Node_name].view@],
        )
}

proof fn lemma_replay_concat(t: Tracking, a: Seq<Step>, b: Seq<Step>)
    ensures
        replay(t, a + b) == replay(replay(t, a), b),
    decreases b.len(),
{
    if b.len() == 0 {
        assert(a + b =~= a);
    } else {
        assert((a + b).drop_last() =~= a + b.drop_last());
        lemma_replay_concat(t, a, b.drop_last());
    }
}

proof fn lemma_take_concat(a: Seq<Step>, b: Seq<Step>, i: int)
    requires
        0 <= i <= a.len() + b.len(),
    ensures
        i <= a.len() ==> (a + b).take(i) == a.take(i),
        i >= a.len() ==> (a + b).take(i) == a + b.take(i - a.len()),
{
    if i <= a.len() {
        assert((a + b).take(i) =~= a.take(i));
    }
    if i >= a.len() {
        assert((a + b).take(i) =~= a + b.take(i - a.len()));
    }
}

proof fn lemma_concat(
    g: Seq<(String, GraphViewInfo)>,
    views: Map<Seq<char>, ViewInfo>,
    t: Tracking,
    a: Seq<Step>,
    b: Seq<Step>,
)
    requires
        consistent(t, a),
        consistent(replay(t, a), b),
        nodes_ok(g, views, t, a),
        nodes_ok(g, views, replay(t, a), b),
    ensures
        consistent(t, a + b),
        nodes_ok(g, views, t, a + b),
        replay(t, a + b) == replay(replay(t, a), b),
{
    lemma_replay_concat(t, a, b);
    assert forall|i: int| 0 <= i < (a + b).len() implies step_ok(replay(t, (a + b).take(i)), #[trigger] (a + b)[i]) && ((a + b)[i] is Node ==> node_states_hold(
            replay(t, (a + b).take(i)),
            map_of(g)[(a + b)[i]->Node_name],
            views[map_of(g)[(a + b)[i]->Node_name].view@],
        )) by {
        lemma_take_concat(a, b, i);
        if i < a.len() {
            assert((a + b)[i] == a[i]);
        } else {
            let j = i - a.len();
            assert((a + b)[i] == b[j]);
            lemma_replay_concat(t, a, b.take(j));
        }
    }
}

proof fn lemma_single(g: Seq<(String, GraphViewInfo)>, views: Map<Seq<char>, ViewInfo>, t: Tracking, s: Step)
    requires
        step_ok(t, s),
        s !is Node,
    ensures
        consistent(t, seq![s]),
        nodes_ok(g, views, t, seq![s]),
        replay(t, seq![s]) == step_effect(t, s),
{
    assert(seq![s].take(0) =~= Seq::<Step>::empty());
    assert(seq![s].drop_last() =~= Seq::<Step>::empty());
    assert(replay(t, Seq::<Step>::empty()) == t);
    assert(seq![s].last() == s);
}

proof fn lemma_empty(g: Seq<(String, GraphViewInfo)>, views: Map<Seq<char>, ViewInfo>, t: Tracking)
    ensures
        consistent(t, Seq::<Step>::empty()),
        nodes_ok(g, views, t, Seq::<Step>::empty()),
        replay(t, Seq::<Step>::empty()) == t,
{
}

/// The effect of transitioning `texs` to `target`: each of them that has a state is in
/// `target` afterwards, every other state is unchanged.
pub open spec fn moved_to(before: Tracking, after: Tracking, texs: Seq<Seq<char>>, target: ResourceState) -> bool {
    &&& after.dom() == before.dom()
    &&& forall|t: Seq<char>| #[trigger] after.contains_key(t) ==> after[t] == if texs.contains(t) {
        target
    } else {
        before[t]
    }
}

proof fn lemma_transitions(
    g: Seq<(String, GraphViewInfo)>,
    views: Map<Seq<char>, ViewInfo>,
    t: Tracking,
    v: Seq<char>,
    texs: Seq<Seq<char>>,
    target: ResourceState,
)
    ensures
        consistent(t, transitions(t, v, texs, target).0),
        nodes_ok(g, views, t, transitions(t, v, texs, target).0),
        replay(t, transitions(t, v, texs, target).0) == transitions(t, v, texs, target).1,
        moved_to(t, transitions(t, v, texs, target).1, texs, target),
    decreases texs.len(),
{
    if texs.len() == 0 {
        lemma_empty(g, views, t);
        assert(transitions(t, v, texs, target).1.dom() =~= t.dom());
    } else {
        let r = transitions(t, v, texs.drop_last(), target);
        lemma_transitions(g, views, t, v, texs.drop_last(), target);
        let s = transition_step(r.1, v, texs.last(), target);
        if r.1.contains_key(texs.last()) && r.1[texs.last()] != target {
            lemma_single(g, views, r.1, s.0[0]);
            assert(s.0 =~= seq![s.0[0]]);
        } else {
            lemma_empty(g, views, r.1);
        }
        lemma_concat(g, views, t, r.0, s.0);
        assert(s.1.dom() =~= t.dom());
        assert forall|x: Seq<char>| #[trigger] s.1.contains_key(x) implies s.1[x] == if texs.contains(x) {
            target
        } else {
            t[x]
        } by {
            if x == texs.last() {
                assert(texs.contains(x));
            } else {
                assert(texs.contains(x) == texs.drop_last().contains(x)) by {
                    if texs.contains(x) {
                        let k = choose|k: int| 0 <= k < texs.len() && texs[k] == x;
                        assert(k < texs.len() - 1);
                        assert(texs.drop_last()[k] == x);
                    }
                    if texs.drop_last().contains(x) {
                        let k = choose|k: int| 0 <= k < texs.drop_last().len() && texs.drop_last()[k] == x;
                        assert(texs[k] == x);
                    }
                }
            }
        }
    }
}

#[verifier::rlimit(40)]
proof fn lemma_node_steps(
    g: Seq<(String, GraphViewInfo)>,
    views: Map<Seq<char>, ViewInfo>,
    t: Tracking,
    i: int,
    res: Seq<Seq<char>>,
)
    requires
        unique_keys(g),
        0 <= i < g.len(),
    ensures
        consistent(t, node_steps(t, g[i].0@, g[i].1, views[g[i].1.view@], res).0),
        nodes_ok(g, views, t, node_steps(t, g[i].0@, g[i].1, views[g[i].1.view@], res).0),
        replay(t, node_steps(t, g[i].0@, g[i].1, views[g[i].1.view@], res).0) == node_steps(
            t,
            g[i].0@,
            g[i].1,
            views[g[i].1.view@],
            res,
        ).1,
        node_steps(t, g[i].0@, g[i].1, views[g[i].1.view@], res).1.dom() == t.dom(),
{
    let node = g[i].1;
    let info = views[node.view@];
    let name = g[i].0@;
    let r = sample_steps(t, node.view@, names_of(node.reads@), res);
    let w = transitions(r.1, node.view@, names_of(info.render_target@), ResourceState::RenderTarget);
    let d = transitions(w.1, node.view@, names_of(info.depth_stencil@), ResourceState::DepthStencil);
    lemma_sample_steps(g, views, t, node.view@, names_of(node.reads@), res);
    lemma_transitions(g, views, r.1, node.view@, names_of(info.render_target@), ResourceState::RenderTarget);
    lemma_transitions(g, views, w.1, node.view@, names_of(info.depth_stencil@), ResourceState::DepthStencil);
    lemma_concat(g, views, t, r.0, w.0);
    lemma_concat(g, views, t, r.0 + w.0, d.0);
    let pre = r.0 + w.0 + d.0;
    let last = seq![Step::Node { name }];
    assert(map_of(g).contains_key(name) && map_of(g)[name] == node) by {
        assert(g[i].0@ == name);
        let j = choose|j: int| 0 <= j < g.len() && #[trigger] g[j].0@ == name;
        assert(j == i);
    }
    assert(node_states_hold(d.1, node, info)) by {
        let reads = names_of(node.reads@);
        let rts = names_of(info.render_target@);
        let dss = names_of(info.depth_stencil@);
        assert forall|x: Seq<char>| #[trigger] d.1.contains_key(x) implies {
            &&& dss.contains(x) ==> d.1[x] == ResourceState::DepthStencil
            &&& (rts.contains(x) && !dss.contains(x)) ==> d.1[x] == ResourceState::RenderTarget
            &&& (reads.contains(x) && !rts.contains(x) && !dss.contains(x)) ==> d.1[x]
                == ResourceState::ShaderResource
        } by {
            assert(w.1.contains_key(x));
            assert(r.1.contains_key(x));
        }
    }
    assert(consistent(d.1, last)) by {
        assert(last.take(0) =~= Seq::<Step>::empty());
    }
    assert(nodes_ok(g, views, d.1, last)) by {
        assert(last.take(0) =~= Seq::<Step>::empty());
    }
    assert(replay(d.1, last) == d.1) by {
        assert(last.drop_last() =~= Seq::<Step>::empty());
    }
    lemma_concat(g, views, t, pre, last);
}

proof fn lemma_nodes_steps(
    g: Seq<(String, GraphViewInfo)>,
    views: Map<Seq<char>, ViewInfo>,
    order: Seq<int>,
    t: Tracking,
    res: Seq<Seq<char>>,
)
    requires
        unique_keys(g),
        valid_order(g, views, order),
    ensures
        consistent(t, nodes_steps(g, views, order, t, res).0),
        nodes_ok(g, views, t, nodes_steps(g, views, order, t, res).0),
        replay(t, nodes_steps(g, views, order, t, res).0) == nodes_steps(g, views, order, t, res).1,
        nodes_steps(g, views, order, t, res).1.dom() == t.dom(),
    decreases order.len(),
{
    if order.len() == 0 {
        lemma_empty(g, views, t);
    } else {
        let prefix = order.drop_last();
        assert(valid_order(g, views, prefix)) by {
            assert forall|k: int| 0 <= k < prefix.len() implies 0 <= #[trigger] prefix[k] < g.len()
                && views.contains_key(g[prefix[k]].1.view@) by {
                assert(prefix[k] == order[k]);
            }
        }
        lemma_nodes_steps(g, views, prefix, t, res);
        let r = nodes_steps(g, views, prefix, t, res);
        let i = order.last();
        assert(order[order.len() - 1] == i);
        lemma_node_steps(g, views, r.1, i, res);
        lemma_concat(g, views, t, r.0, node_steps(r.1, g[i].0@, g[i].1, views[g[i].1.view@], res).0);
    }
}

proof fn lemma_sample_steps(
    g: Seq<(String, GraphViewInfo)>,
    views: Map<Seq<char>, ViewInfo>,
    t: Tracking,
    v: Seq<char>,
    texs: Seq<Seq<char>>,
    resolvable: Seq<Seq<char>>,
)
    ensures
        consistent(t, sample_steps(t, v, texs, resolvable).0),
        nodes_ok(g, views, t, sample_steps(t, v, texs, resolvable).0),
        replay(t, sample_steps(t, v, texs, resolvable).0) == sample_steps(t, v, texs, resolvable).1,
        moved_to(t, sample_steps(t, v, texs, resolvable).1, texs, ResourceState::ShaderResource),
    decreases texs.len(),
{
    if texs.len() == 0 {
        lemma_empty(g, views, t);
        assert(sample_steps(t, v, texs, resolvable).1.dom() =~= t.dom());
    } else {
        let r = sample_steps(t, v, texs.drop_last(), resolvable);
        lemma_sample_steps(g, views, t, v, texs.drop_last(), resolvable);
        let x = texs.last();
        let rs = resolve_step(r.1, v, x, ResourceState::ShaderResource, resolvable.contains(x));
        let ts = transition_step(rs.1, v, x, ResourceState::ShaderResource);
        if rs.0.len() > 0 {
            lemma_single(g, views, r.1, rs.0[0]);
            assert(rs.0 =~= seq![rs.0[0]]);
        } else {
            lemma_empty(g, views, r.1);
        }
        if ts.0.len() > 0 {
            lemma_single(g, views, rs.1, ts.0[0]);
            assert(ts.0 =~= seq![ts.0[0]]);
        } else {
            lemma_empty(g, views, rs.1);
        }
        lemma_concat(g, views, r.1, rs.0, ts.0);
        lemma_concat(g, views, t, r.0, rs.0 + ts.0);
        let e = sample_step(r.1, v, x, resolvable);
        assert(e.0 == rs.0 + ts.0);
        assert(e.1.dom() =~= t.dom());
        assert forall|y: Seq<char>| #[trigger] e.1.contains_key(y) implies e.1[y] == if texs.contains(y) {
            ResourceState::ShaderResource
        } else {
            t[y]
        } by {
            if y == x {
                assert(texs.contains(y));
            } else {
                assert(texs.contains(y) == texs.drop_last().contains(y)) by {
                    if texs.contains(y) {
                        let k = choose|k: int| 0 <= k < texs.len() && texs[k] == y;
                        assert(texs.drop_last()[k] == y);
                    }
                    if texs.drop_last().contains(y) {
                        let k = choose|k: int| 0 <= k < texs.drop_last().len() && texs.drop_last()[k] == y;
                        assert(texs[k] == y);
                    }
                }
            }
        }
    }
}

/// Every barrier of a compiled graph starts from the state the texture is in at that
/// point and changes it, every resolve starts from that state, every node runs with its textures in the states it
/// needs, and at the end every texture handled at end of frame is back in
/// shader-resource state.
pub proof fn lemma_compile_states(
    g: Seq<(String, GraphViewInfo)>,
    views: Map<Seq<char>, ViewInfo>,
    track: Tracking,
    eof_textures: Seq<Seq<char>>,
    resolvable: Seq<Seq<char>>,
)
    requires
        unique_keys(g),
    ensures
        consistent(track, compile(g, views, track, eof_textures, resolvable)),
        nodes_ok(g, views, track, compile(g, views, track, eof_textures, resolvable)),
        forall|t: Seq<char>|
            #[trigger] track.contains_key(t) && eof_textures.contains(t) ==> replay(
                track,
                compile(g, views, track, eof_textures, resolvable),
            )[t] == ResourceState::ShaderResource,
        replay(track, compile(g, views, track, eof_textures, resolvable)).dom() == track.dom(),
{
    assert(valid_order(g, views, Seq::<int>::empty()));
    lemma_schedule_valid(g, views, Seq::<int>::empty(), (g.len() + 1) as nat);
    let n = nodes_steps(g, views, schedule(g, views), track, resolvable);
    lemma_nodes_steps(g, views, schedule(g, views), track, resolvable);
    lemma_sample_steps(g, views, n.1, crate::graph::eof_name(), eof_textures, resolvable);
    lemma_concat(g, views, track, n.0, eof_steps(n.1, eof_textures, resolvable).0);
}

/// Whether a step changes the state of texture `t`.
pub open spec fn touches(s: Step, t: Seq<char>) -> bool {
    match s {
        Step::Barrier { texture, .. } => texture == t,
        Step::Resolve { texture, .. } => texture == t,
        Step::Node { .. } => false,
    }
}

proof fn lemma_replay_step(track: Tracking, steps: Seq<Step>, k: int)
    requires
        0 <= k < steps.len(),
    ensures
        replay(track, steps.take(k + 1)) == step_effect(replay(track, steps.take(k)), steps[k]),
{
    assert(steps.take(k + 1).drop_last() =~= steps.take(k));
    assert(steps.take(k + 1).last() == steps[k]);
}

/// If the state of `t` differs between positions `a` and `b`, some step in between
/// changes it, and the last such step set the state found at `b`.
proof fn lemma_last_touch(track: Tracking, steps: Seq<Step>, a: int, b: int, t: Seq<char>)
    requires
        0 <= a <= b <= steps.len(),
        replay(track, steps.take(a)).contains_key(t),
        replay(track, steps.take(b))[t] != replay(track, steps.take(a))[t],
    ensures
        exists|k: int|
            a <= k < b && #[trigger] touches(steps[k], t) && (forall|m: int| k < m < b ==> !touches(#[trigger] steps[m], t))
                && replay(track, steps.take(b))[t] == step_effect(replay(track, steps.take(k)), steps[k])[t],
    decreases b - a,
{
    lemma_replay_step(track, steps, b - 1);
    if touches(steps[b - 1], t) {
        assert(forall|m: int| b - 1 < m < b ==> !touches(#[trigger] steps[m], t));
    } else {
        let prev = replay(track, steps.take(b - 1));
        assert(replay(track, steps.take(b))[t] == prev[t]) by {
            match steps[b - 1] {
                Step::Barrier { texture, .. } => {
                    assert(texture != t);
                },
                Step::Resolve { texture, .. } => {
                    assert(texture != t);
                },
                Step::Node { .. } => {},
            }
        }
        lemma_last_touch(track, steps, a, b - 1, t);
        let k = choose|k: int|
            a <= k < b - 1 && #[trigger] touches(steps[k], t) && (forall|m: int| k < m < b - 1 ==> !touches(#[trigger] steps[m], t))
                && replay(track, steps.take(b - 1))[t] == step_effect(replay(track, steps.take(k)), steps[k])[t];
        assert(forall|m: int| k < m < b ==> !touches(#[trigger] steps[m], t));
    }
}

proof fn lemma_untouched(track: Tracking, steps: Seq<Step>, a: int, b: int, t: Seq<char>)
    requires
        0 <= a <= b <= steps.len(),
        forall|m: int| a <= m < b ==> !touches(#[trigger] steps[m], t),
    ensures
        replay(track, steps.take(b))[t] == replay(track, steps.take(a))[t],
        replay(track, steps.take(b)).contains_key(t) == replay(track, steps.take(a)).contains_key(t),
    decreases b - a,
{
    if b > a {
        lemma_untouched(track, steps, a, b - 1, t);
        lemma_replay_step(track, steps, b - 1);
        assert(!touches(steps[b - 1], t));
        match steps[b - 1] {
            Step::Barrier { texture, .. } => {
                assert(texture != t);
            },
            Step::Resolve { texture, .. } => {
                assert(texture != t);
            },
            Step::Node { .. } => {},
        }
    }
}

/// No transition is emitted twice in a row: of two barriers on one texture with no step
/// on that texture between them, the second starts in the state the first left and moves
/// it to a different state.
pub proof fn lemma_no_repeated_barrier(track: Tracking, steps: Seq<Step>, i: int, j: int)
    requires
        consistent(track, steps),
        0 <= i < j < steps.len(),
        steps[i] is Barrier,
        steps[j] is Barrier,
        steps[i]->Barrier_texture == steps[j]->Barrier_texture,
        forall|m: int| i < m < j ==> !touches(#[trigger] steps[m], steps[i]->Barrier_texture),
    ensures
        steps[j]->Barrier_before == steps[i]->Barrier_after,
        steps[j]->Barrier_after != steps[i]->Barrier_after,
{
    let t = steps[i]->Barrier_texture;
    assert(step_ok(replay(track, steps.take(i)), steps[i]));
    assert(step_ok(replay(track, steps.take(j)), steps[j]));
    lemma_replay_step(track, steps, i);
    lemma_untouched(track, steps, i + 1, j, t);
}

/// A texture written as a render target by node `A` and sampled by a later node `B` of a
/// compiled graph: unless it already starts in render-target state, a barrier moves it
/// to render-target state before `A`; and between `A` and `B` a barrier moves it to
/// shader-resource state, after which no step touches it before `B`.
pub proof fn lemma_writer_then_reader(
    g: Seq<(String, GraphViewInfo)>,
    views: Map<Seq<char>, ViewInfo>,
    track: Tracking,
    eof_textures: Seq<Seq<char>>,
    resolvable: Seq<Seq<char>>,
    a: int,
    b: int,
    t: Seq<char>,
)
    requires
        unique_keys(g),
        0 <= a < b < compile(g, views, track, eof_textures, resolvable).len(),
        track.contains_key(t),
        ({
            let steps = compile(g, views, track, eof_textures, resolvable);
            let na = map_of(g)[steps[a]->Node_name];
            let nb = map_of(g)[steps[b]->Node_name];
            let ia = views[na.view@];
            let ib = views[nb.view@];
            &&& steps[a] is Node
            &&& steps[b] is Node
            &&& names_of(ia.render_target@).contains(t)
            &&& !names_of(ia.depth_stencil@).contains(t)
            &&& names_of(nb.reads@).contains(t)
            &&& !names_of(ib.render_target@).contains(t)
            &&& !names_of(ib.depth_stencil@).contains(t)
        }),
    ensures
        ({
            let steps = compile(g, views, track, eof_textures, resolvable);
            &&& track[t] != ResourceState::RenderTarget ==> exists|k: int|
                0 <= k < a && #[trigger] steps[k] is Barrier && steps[k]->Barrier_texture == t
                    && steps[k]->Barrier_after == ResourceState::RenderTarget
            &&& exists|k: int|
                a < k < b && #[trigger] steps[k] is Barrier && steps[k]->Barrier_texture == t
                    && steps[k]->Barrier_after == ResourceState::ShaderResource
                    && forall|m: int| k < m < b ==> !touches(#[trigger] steps[m], t)
        }),
{
    let steps = compile(g, views, track, eof_textures, resolvable);
    lemma_compile_states(g, views, track, eof_textures, resolvable);
    assert(steps[a] is Node);
    assert(steps[b] is Node);
    lemma_dom_along(track, steps, a);
    lemma_dom_along(track, steps, b);
    let sa = replay(track, steps.take(a));
    let sb = replay(track, steps.take(b));
    assert(sa[t] == ResourceState::RenderTarget);
    assert(sb[t] == ResourceState::ShaderResource);
    if track[t] != ResourceState::RenderTarget {
        assert(steps.take(0) =~= Seq::<Step>::empty());
        lemma_last_touch(track, steps, 0, a, t);
        let k = choose|k: int|
            0 <= k < a && #[trigger] touches(steps[k], t) && (forall|m: int| k < m < a ==> !touches(#[trigger] steps[m], t))
                && replay(track, steps.take(a))[t] == step_effect(replay(track, steps.take(k)), steps[k])[t];
        assert(steps[k] is Barrier);
    }
    lemma_last_touch(track, steps, a, b, t);
    let k = choose|k: int|
        a <= k < b && #[trigger] touches(steps[k], t) && (forall|m: int| k < m < b ==> !touches(#[trigger] steps[m], t))
            && replay(track, steps.take(b))[t] == step_effect(replay(track, steps.take(k)), steps[k])[t];
    assert(steps[k] is Barrier);
    assert(k != a);
}

proof fn lemma_dom_along(track: Tracking, steps: Seq<Step>, p: int)
    requires
        consistent(track, steps),
        0 <= p <= steps.len(),
    ensures
        replay(track, steps.take(p)).dom() == track.dom(),
    decreases p,
{
    if p == 0 {
        assert(steps.take(0) =~= Seq::<Step>::empty());
    } else {
        lemma_dom_along(track, steps, p - 1);
        lemma_replay_step(track, steps, p - 1);
        assert(step_ok(replay(track, steps.take(p - 1)), steps[p - 1]));
        assert(replay(track, steps.take(p)).dom() =~= track.dom());
    }
}

/// A texture that cannot be resolved still gets its end-of-frame transition: its
/// end-of-frame steps are exactly the plain transition to shader-resource state.
pub proof fn lemma_unresolvable_still_transitioned(track: Tracking, tex: Seq<char>, resolvable: Seq<Seq<char>>)
    requires
        !resolvable.contains(tex),
    ensures
        eof_step(track, tex, resolvable) == transition_step(
            track,
            crate::graph::eof_name(),
            tex,
            ResourceState::ShaderResource,
        ),
{
    let s = transition_step(track, crate::graph::eof_name(), tex, ResourceState::ShaderResource);
    assert(Seq::<Step>::empty() + s.0 =~= s.0);
}

} // verus!
