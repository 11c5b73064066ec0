//! Descriptor bookkeeping of the device: its descriptor heaps and the queue of destroyed
//! textures whose slots are released only once no frame in flight can still use them.
use vstd::prelude::*;
use crate::error::PmfxError;
use crate::heap::Heap;

verus! {

/// The descriptor slots a texture holds.
#[derive(Clone, Copy, Debug, PartialEq, Eq, Structural)]
pub struct Texture {
    /// Shader-resource slot in the shader heap.
    pub srv_index: Option<usize>,
    /// Shader-resource slot of the single-sample resolve resource, for multisampled textures.
    pub resolved_srv_index: Option<usize>,
    /// Unordered-access slot in the shader heap.
    pub uav_index: Option<usize>,
    /// Render-target handle in the render-target heap.
    pub rtv: Option<usize>,
    /// Depth-stencil handle in the depth-stencil heap.
    pub dsv: Option<usize>,
}

impl Texture {
    /// The slot to sample: the resolve resource's when there is one.
    pub fn get_srv_index(&self) -> (r: Option<usize>)
        ensures
            r == if self.resolved_srv_index is Some { self.resolved_srv_index } else { self.srv_index },
    {
        if self.resolved_srv_index.is_some() {
            self.resolved_srv_index
        } else {
            self.srv_index
        }
    }

    pub fn get_uav_index(&self) -> (r: Option<usize>)
        ensures
            r == self.uav_index,
    {
        self.uav_index
    }

    /// Whether the texture has a single-sample resolve resource.
    pub fn is_resolvable(&self) -> (r: bool)
        ensures
            r == self.resolved_srv_index is Some,
    {
        self.resolved_srv_index.is_some()
    }

    /// Its shader-heap slots lie inside a heap of `slots` slots.
    pub open spec fn fits(&self, slots: int) -> bool {
        &&& (self.srv_index matches Some(i) ==> i < slots)
        &&& (self.uav_index matches Some(i) ==> i < slots)
        &&& (self.resolved_srv_index matches Some(i) ==> i < slots)
    }
}

/// An entry of the queue: frames waited so far, and the texture.
pub type Retired = (u64, Texture);

/// Entries with their frame count advanced by one.
pub open spec fn aged(q: Seq<Retired>) -> Seq<Retired> {
    q.map_values(|e: Retired| ((e.0 + 1) as u64, e.1))
}

/// An entry stays queued while it has waited no longer than the number of buffers.
pub open spec fn keeps(n: u32, e: Retired) -> bool {
    e.0 <= n
}

pub open spec fn keep_pred(n: u32) -> spec_fn(Retired) -> bool {
    |e: Retired| keeps(n, e)
}

pub open spec fn free_pred(n: u32) -> spec_fn(Retired) -> bool {
    |e: Retired| !keeps(n, e)
}

/// The queue after one clean-up with `n` buffers in the swap chain.
pub open spec fn kept_after(q: Seq<Retired>, n: u32) -> Seq<Retired> {
    aged(q).filter(keep_pred(n))
}

/// The textures that one clean-up with `n` buffers frees, in queue order.
pub open spec fn freed_by(q: Seq<Retired>, n: u32) -> Seq<Texture> {
    aged(q).filter(free_pred(n)).map_values(|e: Retired| e.1)
}

/// Shader-heap addresses that freeing `ts` returns, in order: shader-resource, resolve
/// shader-resource, then unordered-access slot of each texture.
pub open spec fn shader_releases(heap: Heap, ts: Seq<Texture>) -> Seq<usize>
    decreases ts.len(),
{
    if ts.len() == 0 {
        Seq::empty()
    } else {
        let t = ts.last();
        shader_releases(heap, ts.drop_last())
            + (if let Some(i) = t.srv_index { seq![heap.address(i as int) as usize] } else { Seq::empty() })
            + (if let Some(i) = t.resolved_srv_index { seq![heap.address(i as int) as usize] } else { Seq::empty() })
            + (if let Some(i) = t.uav_index { seq![heap.address(i as int) as usize] } else { Seq::empty() })
    }
}

/// Handles of kind `rtv` (or `dsv` when `depth`) that freeing `ts` returns, in order.
pub open spec fn target_releases(ts: Seq<Texture>, depth: bool) -> Seq<usize>
    decreases ts.len(),
{
    if ts.len() == 0 {
        Seq::empty()
    } else {
        let slot = if depth { ts.last().dsv } else { ts.last().rtv };
        target_releases(ts.drop_last(), depth)
            + (if let Some(h) = slot { seq![h] } else { Seq::empty() })
    }
}

/// The queue after `k` clean-ups with `n` buffers.
pub open spec fn kept_after_calls(q: Seq<Retired>, n: u32, k: nat) -> Seq<Retired>
    decreases k,
{
    if k == 0 {
        q
    } else {
        kept_after(kept_after_calls(q, n, (k - 1) as nat), n)
    }
}

proof fn lemma_push_filter(s: Seq<Retired>, x: Retired, f: spec_fn(Retired) -> bool)
    ensures
        s.push(x).filter(f) == if f(x) { s.filter(f).push(x) } else { s.filter(f) },
{
    reveal(Seq::filter);
    assert(s.push(x).drop_last() =~= s);
}

proof fn lemma_aged_push(s: Seq<Retired>, x: Retired)
    ensures
        aged(s.push(x)) == aged(s).push(((x.0 + 1) as u64, x.1)),
{
    assert(aged(s.push(x)) =~= aged(s).push(((x.0 + 1) as u64, x.1)));
}

/// A texture destroyed while the swap chain has `n` buffers stays queued, its slots
/// unreleased, through `n` clean-ups, and the clean-up after those frees it.
pub proof fn lemma_reclamation_delay(q: Seq<Retired>, t: Texture, n: u32, k: nat)
    requires
        k <= n,
    ensures
        kept_after_calls(q.push((0u64, t)), n, k) == kept_after_calls(q, n, k).push((k as u64, t)),
        freed_by(kept_after_calls(q.push((0u64, t)), n, n as nat), n)
            == freed_by(kept_after_calls(q, n, n as nat), n).push(t),
{
    lemma_queue_after(q, t, n, k);
    lemma_reclamation_delay_last(q, t, n);
}

proof fn lemma_reclamation_delay_last(q: Seq<Retired>, t: Texture, n: u32)
    ensures
        freed_by(kept_after_calls(q.push((0u64, t)), n, n as nat), n)
            == freed_by(kept_after_calls(q, n, n as nat), n).push(t),
{
    lemma_queue_after(q, t, n, n as nat);
    let b = kept_after_calls(q, n, n as nat);
    lemma_aged_push(b, (n as u64, t));
    lemma_push_filter(aged(b), ((n + 1) as u64, t), free_pred(n));
    assert(aged(b).push(((n + 1) as u64, t)).filter(free_pred(n)).map_values(|e: Retired| e.1)
        =~= aged(b).filter(free_pred(n)).map_values(|e: Retired| e.1).push(t));
}

proof fn lemma_queue_after(q: Seq<Retired>, t: Texture, n: u32, k: nat)
    requires
        k <= n,
    ensures
        kept_after_calls(q.push((0u64, t)), n, k) == kept_after_calls(q, n, k).push((k as u64, t)),
    decreases k,
{
    if k > 0 {
        lemma_queue_after(q, t, n, (k - 1) as nat);
        let a = kept_after_calls(q, n, (k - 1) as nat);
        lemma_aged_push(a, (((k - 1) as nat) as u64, t));
        lemma_push_filter(aged(a), (k as u64, t), keep_pred(n));
    }
}

/// Checks that initialisation data for a resource is exactly `size_bytes` long; having
/// no data is fine.
pub fn validate_data_size<T>(size_bytes: usize, data: Option<&[T]>) -> (r: Result<(), PmfxError>)
    ensures
        r is Ok <==> (data matches Some(d) ==> d@.len() * vstd::layout::size_of::<T>() == size_bytes),
        r matches Err(e) ==> e matches PmfxError::DataSize { expected, .. } && expected == size_bytes,
{
    match data {
        None => Ok(()),
        Some(d) => {
            let elem = core::mem::size_of::<T>();
            match d.len().checked_mul(elem) {
                Some(n) => if n == size_bytes {
                    Ok(())
                } else {
                    Err(PmfxError::DataSize { expected: size_bytes, actual: n })
                },
                None => Err(PmfxError::DataSize { expected: size_bytes, actual: usize::MAX }),
            }
        },
    }
}

/// The descriptor heaps of a device and its queue of destroyed textures.
pub struct Device {
    pub shader_heap: Heap,
    pub rtv_heap: Heap,
    pub dsv_heap: Heap,
    /// Destroyed textures waiting for their frames in flight to retire, oldest first.
    pub cleanup_textures: Vec<Retired>,
}

impl Device {
    /// The texture's slots belong to this device's heaps.
    pub open spec fn holds(&self, t: Texture) -> bool {
        &&& t.fits(self.shader_heap.slots())
        &&& (t.rtv matches Some(h) ==> self.rtv_heap.is_handle(h as int))
        &&& (t.dsv matches Some(h) ==> self.dsv_heap.is_handle(h as int))
    }

    /// The queue of destroyed textures, oldest first.
    pub open spec fn queue(&self) -> Seq<Retired> {
        self.cleanup_textures@
    }

    pub open spec fn wf(&self) -> bool {
        &&& self.shader_heap.wf()
        &&& self.rtv_heap.wf()
        &&& self.dsv_heap.wf()
        &&& forall|i: int|
            0 <= i < self.queue().len() ==> {
                &&& #[trigger] self.queue()[i].0 <= u32::MAX
                &&& self.holds(self.queue()[i].1)
            }
    }

    pub fn new(shader_heap: Heap, rtv_heap: Heap, dsv_heap: Heap) -> (r: Self)
        requires
            shader_heap.wf(),
            rtv_heap.wf(),
            dsv_heap.wf(),
        ensures
            r.wf(),
            r.shader_heap == shader_heap,
            r.rtv_heap == rtv_heap,
            r.dsv_heap == dsv_heap,
            r.queue() == Seq::<Retired>::empty(),
    {
        Device { shader_heap, rtv_heap, dsv_heap, cleanup_textures: Vec::new() }
    }

    /// Queues a texture for destruction; nothing is released yet.
    pub fn destroy_texture(&mut self, texture: Texture)
        requires
            old(self).wf(),
            old(self).holds(texture),
        ensures
            final(self).wf(),
            final(self).queue() == old(self).queue().push((0u64, texture)),
            final(self).shader_heap == old(self).shader_heap,
            final(self).rtv_heap == old(self).rtv_heap,
            final(self).dsv_heap == old(self).dsv_heap,
    {
        self.cleanup_textures.push((0, texture));
        assert(self.cleanup_textures@[self.cleanup_textures@.len() - 1] == (0u64, texture));
        assert forall|i: int| 0 <= i < self.queue().len() implies {
            &&& #[trigger] self.queue()[i].0 <= u32::MAX
            &&& self.holds(self.queue()[i].1)
        } by {
            if i < old(self).queue().len() {
                assert(self.queue()[i] == old(self).queue()[i]);
            }
        }
    }

    /// Advances every queued texture by one frame and frees those that have waited longer
    /// than `num_buffers` frames, returning their slots to the heaps. Returns the freed
    /// textures.
    #[verifier::rlimit(60)]
    pub fn clean_up_resources(&mut self, num_buffers: u32) -> (r: Vec<Texture>)
        requires
            old(self).wf(),
        ensures
            final(self).wf(),
            final(self).queue() == kept_after(old(self).queue(), num_buffers),
            r@ == freed_by(old(self).queue(), num_buffers),
            final(self).shader_heap.free() == old(self).shader_heap.free()
                + shader_releases(old(self).shader_heap, r@),
            final(self).rtv_heap.free() == old(self).rtv_heap.free() + target_releases(r@, false),
            final(self).dsv_heap.free() == old(self).dsv_heap.free() + target_releases(r@, true),
            final(self).shader_heap.slots() == old(self).shader_heap.slots(),
            final(self).shader_heap.base() == old(self).shader_heap.base(),
            final(self).shader_heap.increment() == old(self).shader_heap.increment(),
            final(self).shader_heap.bumped() == old(self).shader_heap.bumped(),
            final(self).rtv_heap.bumped() == old(self).rtv_heap.bumped(),
            final(self).dsv_heap.bumped() == old(self).dsv_heap.bumped(),
    {
        let ghost q = old(self).queue();
        let ghost sh0 = old(self).shader_heap;
        let ghost rf0 = old(self).rtv_heap.free();
        let ghost df0 = old(self).dsv_heap.free();
        let mut kept: Vec<Retired> = Vec::new();
        let mut freed: Vec<Texture> = Vec::new();
        let mut i: usize = 0;
        let n = self.cleanup_textures.len();
        assert(aged(q).take(0).filter(keep_pred(num_buffers)) =~= Seq::<Retired>::empty());
        assert(aged(q).take(0).filter(free_pred(num_buffers)).map_values(|e: Retired| e.1) =~= Seq::<Texture>::empty());
        while i < n
            invariant
                n == q.len(),
                q == old(self).queue(),
                sh0 == old(self).shader_heap,
                self.cleanup_textures@ == q,
                i <= n,
                forall|j: int| 0 <= j < q.len() ==> {
                    &&& #[trigger] q[j].0 <= u32::MAX
                    &&& old(self).holds(q[j].1)
                },
                self.shader_heap.wf(),
                self.rtv_heap.wf(),
                self.dsv_heap.wf(),
                self.shader_heap.slots() == sh0.slots(),
                self.shader_heap.base() == sh0.base(),
                self.shader_heap.increment() == sh0.increment(),
                self.shader_heap.bumped() == sh0.bumped(),
                self.rtv_heap.bumped() == old(self).rtv_heap.bumped(),
                self.dsv_heap.bumped() == old(self).dsv_heap.bumped(),
                self.rtv_heap.base() == old(self).rtv_heap.base(),
                self.rtv_heap.increment() == old(self).rtv_heap.increment(),
                self.rtv_heap.slots() == old(self).rtv_heap.slots(),
                self.dsv_heap.base() == old(self).dsv_heap.base(),
                self.dsv_heap.increment() == old(self).dsv_heap.increment(),
                self.dsv_heap.slots() == old(self).dsv_heap.slots(),
                kept@ == aged(q).take(i as int).filter(keep_pred(num_buffers)),
                freed@ == aged(q).take(i as int).filter(free_pred(num_buffers)).map_values(|e: Retired| e.1),
                self.shader_heap.free() == sh0.free() + shader_releases(sh0, freed@),
                self.rtv_heap.free() == rf0 + target_releases(freed@, false),
                self.dsv_heap.free() == df0 + target_releases(freed@, true),
            decreases n - i,
        {
            let (frames, tex) = self.cleanup_textures[i];
            let frames = frames + 1;
            let ghost e = (frames, tex);
            assert(aged(q)[i as int] == e);
            assert(aged(q).take(i + 1) =~= aged(q).take(i as int).push(e));
            assert(aged(q).take(i as int).push(e).drop_last() =~= aged(q).take(i as int));
            reveal(Seq::filter);
            if frames <= num_buffers as u64 {
                kept.push((frames, tex));
                assert(aged(q).take(i + 1).filter(free_pred(num_buffers)) =~= aged(q).take(i as int).filter(free_pred(num_buffers)));
            } else {
                let ghost before = freed@;
                assert(q[i as int].0 <= u32::MAX);
                assert(tex == q[i as int].1);
                assert(old(self).holds(tex));
                assert(tex.fits(self.shader_heap.slots()));
                proof {
                    if let Some(h) = tex.rtv {
                        Heap::lemma_same_layout(&old(self).rtv_heap, &self.rtv_heap, h as int);
                    }
                    if let Some(h) = tex.dsv {
                        Heap::lemma_same_layout(&old(self).dsv_heap, &self.dsv_heap, h as int);
                    }
                }
                if let Some(srv) = tex.srv_index {
                    self.shader_heap.deallocate(srv);
                }
                if let Some(srv) = tex.resolved_srv_index {
                    self.shader_heap.deallocate(srv);
                }
                if let Some(uav) = tex.uav_index {
                    self.shader_heap.deallocate(uav);
                }
                if let Some(rtv) = tex.rtv {
                    self.rtv_heap.deallocate_internal(rtv);
                }
                if let Some(dsv) = tex.dsv {
                    self.dsv_heap.deallocate_internal(dsv);
                }
                freed.push(tex);
                assert(aged(q).take(i + 1).filter(keep_pred(num_buffers)) =~= aged(q).take(i as int).filter(keep_pred(num_buffers)));
                assert(freed@.drop_last() =~= before);
                assert(aged(q).take(i + 1).filter(free_pred(num_buffers)).map_values(|e: Retired| e.1) =~= before.push(tex));
                assert(self.shader_heap.free() =~= sh0.free() + shader_releases(sh0, freed@));
                assert(self.rtv_heap.free() =~= rf0 + target_releases(freed@, false));
                assert(self.dsv_heap.free() =~= df0 + target_releases(freed@, true));
            }
            i += 1;
        }
        assert(aged(q).take(n as int) =~= aged(q));
        proof {
            assert forall|j: int| 0 <= j < kept@.len() implies {
                &&& #[trigger] kept@[j].0 <= u32::MAX
                &&& self.holds(kept@[j].1)
            } by {
                let f = keep_pred(num_buffers);
                assert(kept@[j] == aged(q).filter(f)[j]);
                assert(aged(q).filter(f).contains(kept@[j]));
                aged(q).lemma_filter_contains_rev(f, kept@[j]);
                let k = choose|k: int| 0 <= k < aged(q).len() && aged(q)[k] == kept@[j];
                assert(old(self).holds(q[k].1));
                if let Some(h) = q[k].1.rtv {
                    Heap::lemma_same_layout(&old(self).rtv_heap, &self.rtv_heap, h as int);
                }
                if let Some(h) = q[k].1.dsv {
                    Heap::lemma_same_layout(&old(self).dsv_heap, &self.dsv_heap, h as int);
                }
            }
        }
        self.cleanup_textures = kept;
        freed
    }
}

} // verus!
