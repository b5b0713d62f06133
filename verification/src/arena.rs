//! The layer quad arena: per compositing layer (ordered by depth index),
//! three rotating vertex buffers, each a bump allocator over a fixed quad
//! capacity, plus the cross-frame continuity store of retained buffers.

use vstd::prelude::*;
use crate::command::{HsbTransform, LinearRgba, QuadMode};
use crate::plan::{LayerQuadSnapshot, QuadRange, spec_quad_count};

verus! {

/// Vertices that one quad contributes to a vertex buffer.
pub const VERTICES_PER_QUAD: usize = 4;

/// Indices that one quad contributes to the shared index buffer.
pub const INDICES_PER_QUAD: usize = 6;

/// Capacity growth granularity: reallocation rounds the needed quad count
/// up to the next multiple of this tile.
pub const QUAD_ALLOCATION_TILE: usize = 128;

/// Quad capacity of the middle buffer of a lazily created layer.
pub const DEFAULT_LAYER_QUADS: usize = 128;

/// Quad capacity of the middle buffer of the main layer at depth zero.
pub const MAIN_LAYER_QUADS: usize = 1024;

/// Quad capacity of the two side buffers of every layer.
pub const SIDE_BUFFER_QUADS: usize = 32;

/// The vertex attributes written for one quad: position and texture
/// region in pixel and texel space, colors, an optional color transform
/// and the shader mode.
#[derive(Clone, Copy, Debug, PartialEq, Eq)]
pub struct Quad {
    pub left: i64,
    pub top: i64,
    pub right: i64,
    pub bottom: i64,
    pub tex_left: i64,
    pub tex_top: i64,
    pub tex_right: i64,
    pub tex_bottom: i64,
    pub fg_color: LinearRgba,
    pub alt_color: Option<(LinearRgba, u16)>,
    pub hsv: Option<HsbTransform>,
    pub mode: QuadMode,
}

impl Quad {
    /// The value every slot of a fresh buffer holds: a degenerate glyph
    /// quad at the origin.
    pub open spec fn spec_default() -> Quad {
        Quad {
            left: 0,
            top: 0,
            right: 0,
            bottom: 0,
            tex_left: 0,
            tex_top: 0,
            tex_right: 0,
            tex_bottom: 0,
            fg_color: LinearRgba { red: 0, green: 0, blue: 0, alpha: 0 },
            alt_color: None,
            hsv: None,
            mode: QuadMode::Glyph,
        }
    }
}

impl Default for Quad {
    fn default() -> (r: Self)
        ensures
            r == Quad::spec_default(),
    {
        Quad {
            left: 0,
            top: 0,
            right: 0,
            bottom: 0,
            tex_left: 0,
            tex_top: 0,
            tex_right: 0,
            tex_bottom: 0,
            fg_color: LinearRgba { red: 0, green: 0, blue: 0, alpha: 0 },
            alt_color: None,
            hsv: None,
            mode: QuadMode::Glyph,
        }
    }
}

/// Three rotating vertex buffers over one quad capacity, with the bump
/// cursor for the buffer currently being written.
#[derive(Clone, Debug)]
pub struct TripleVertexBuffer {
    /// Which of the three rotating buffers is written this frame.
    pub index: usize,
    /// The three buffers, each `capacity` quads long.
    pub bufs: Vec<Vec<Quad>>,
    pub capacity: usize,
    /// The bump cursor: how many quads have been claimed this frame.  It
    /// may run past `capacity`, which flags the buffer for reallocation.
    pub next_quad: usize,
}

impl TripleVertexBuffer {
    pub open spec fn wf(self) -> bool {
        &&& self.bufs@.len() == 3
        &&& self.index < 3
        &&& 0 < self.capacity
        &&& forall|b: int| 0 <= b < 3 ==> (#[trigger] self.bufs@[b])@.len() == self.capacity
    }

    /// The quads of the buffer being written this frame.
    pub open spec fn data(self) -> Seq<Quad> {
        self.bufs@[self.index as int]@
    }

    /// A fresh triple buffer of the given capacity.
    pub fn new(capacity: usize) -> (r: Self)
        requires
            0 < capacity,
        ensures
            r.wf(),
            r.capacity == capacity,
            r.next_quad == 0,
            r.index == 0,
            r.data() == Seq::new(capacity as nat, |i: int| Quad::spec_default()),
    {
        let proto: Quad = Default::default();
        let buf0: Vec<Quad> = vec![proto; capacity];
        let buf1: Vec<Quad> = vec![proto; capacity];
        let buf2: Vec<Quad> = vec![proto; capacity];
        let mut bufs: Vec<Vec<Quad>> = Vec::new();
        bufs.push(buf0);
        bufs.push(buf1);
        bufs.push(buf2);
        let r = TripleVertexBuffer { index: 0, bufs, capacity, next_quad: 0 };
        proof {
            assert(r.data() =~= Seq::new(capacity as nat, |i: int| Quad::spec_default()));
        }
        r
    }

    /// Resets the bump cursor at the start of a frame.
    pub fn clear_quad_allocation(&mut self)
        ensures
            final(self).next_quad == 0,
            final(self).index == old(self).index,
            final(self).capacity == old(self).capacity,
            final(self).bufs == old(self).bufs,
    {
        self.next_quad = 0;
    }

    /// After a pass, reports the capacity the frame would have needed, if
    /// the cursor ran past the current capacity.
    pub fn need_more_quads(&self) -> (r: Option<usize>)
        ensures
            r == if self.next_quad > self.capacity {
                Some(self.next_quad)
            } else {
                None::<usize>
            },
    {
        if self.next_quad > self.capacity {
            Some(self.next_quad)
        } else {
            None
        }
    }

    /// The vertex and index counts covering the quads claimed so far.
    pub fn vertex_index_count(&self) -> (r: (usize, usize))
        requires
            self.next_quad * INDICES_PER_QUAD <= usize::MAX,
        ensures
            r.0 == self.next_quad * VERTICES_PER_QUAD,
            r.1 == self.next_quad * INDICES_PER_QUAD,
    {
        (self.next_quad * VERTICES_PER_QUAD, self.next_quad * INDICES_PER_QUAD)
    }

    /// Reserves `delta` quads without writing them, used when a section's
    /// previously recorded range is replayed instead of re-executed.
    pub fn advance_quad_count(&mut self, delta: usize)
        requires
            old(self).next_quad + delta <= usize::MAX,
        ensures
            final(self).next_quad == old(self).next_quad + delta,
            final(self).index == old(self).index,
            final(self).capacity == old(self).capacity,
            final(self).bufs == old(self).bufs,
    {
        self.next_quad = self.next_quad + delta;
    }

    /// Claims the next quad and writes its attributes.  When the cursor
    /// has run past the capacity, the write lands on quad zero so that the
    /// pass continues without failing; `need_more_quads` reports the
    /// shortfall afterwards.
    pub fn write_quad(&mut self, q: Quad)
        requires
            old(self).wf(),
            old(self).next_quad < usize::MAX,
        ensures
            final(self).wf(),
            final(self).next_quad == old(self).next_quad + 1,
            final(self).index == old(self).index,
            final(self).capacity == old(self).capacity,
            final(self).data() == old(self).data().update(
                if old(self).next_quad < old(self).capacity {
                    old(self).next_quad as int
                } else {
                    0
                },
                q,
            ),
            forall|b: int|
                0 <= b < 3 && b != old(self).index ==> final(self).bufs@[b] == old(self).bufs@[b],
    {
        let idx = self.next_quad;
        self.next_quad = idx + 1;
        let w = if idx < self.capacity {
            idx
        } else {
            0
        };
        let current = self.index;
        let buf = &mut self.bufs[current];
        buf[w] = q;
    }

    /// Rotates to the next of the three buffers, after a frame is drawn.
    pub fn next_index(&mut self)
        requires
            old(self).wf(),
        ensures
            final(self).wf(),
            final(self).index == if old(self).index + 1 >= 3 {
                0int
            } else {
                old(self).index + 1
            },
            final(self).capacity == old(self).capacity,
            final(self).next_quad == old(self).next_quad,
            final(self).bufs == old(self).bufs,
    {
        let next = self.index + 1;
        self.index = if next >= 3 {
            0
        } else {
            next
        };
    }

    /// Takes the written buffer out for retention in the continuity
    /// store, leaving a fresh buffer of the same capacity in its place.
    pub fn take_written_buffer(&mut self) -> (r: Vec<Quad>)
        requires
            old(self).wf(),
        ensures
            final(self).wf(),
            r@ == old(self).data(),
            final(self).index == old(self).index,
            final(self).capacity == old(self).capacity,
            final(self).next_quad == old(self).next_quad,
            final(self).data() == Seq::new(
                old(self).capacity as nat,
                |i: int| Quad::spec_default(),
            ),
            forall|b: int|
                0 <= b < 3 && b != old(self).index ==> final(self).bufs@[b] == old(self).bufs@[b],
    {
        let proto: Quad = Default::default();
        let mut fresh: Vec<Quad> = vec![proto; self.capacity];
        let current = self.index;
        let buf = &mut self.bufs[current];
        core::mem::swap(buf, &mut fresh);
        proof {
            assert(self.data() =~= Seq::new(
                old(self).capacity as nat,
                |i: int| Quad::spec_default(),
            ));
        }
        fresh
    }
}

/// One compositing layer: a depth index and its three sub-buffers.
#[derive(Clone, Debug)]
pub struct RenderLayer {
    pub zindex: i8,
    /// Always three sub-buffers; a command addresses one by its `layer`
    /// field.
    pub vb: Vec<TripleVertexBuffer>,
}

/// What every slot of a lazily created layer holds before anything is
/// written: default quads over the default capacities.
pub open spec fn spec_new_layer_data(s: int) -> Seq<Quad> {
    Seq::new(
        if s == 1 {
            DEFAULT_LAYER_QUADS as nat
        } else {
            SIDE_BUFFER_QUADS as nat
        },
        |i: int| Quad::spec_default(),
    )
}

impl RenderLayer {
    pub open spec fn wf(self) -> bool {
        &&& self.vb@.len() == 3
        &&& forall|s: int| 0 <= s < 3 ==> (#[trigger] self.vb@[s]).wf()
    }

    /// A fresh layer: a large middle buffer flanked by two small ones.
    pub fn new(num_quads: usize, zindex: i8) -> (r: Self)
        requires
            0 < num_quads,
        ensures
            r.wf(),
            r.zindex == zindex,
            r.vb@[0].capacity == SIDE_BUFFER_QUADS,
            r.vb@[1].capacity == num_quads,
            r.vb@[2].capacity == SIDE_BUFFER_QUADS,
            forall|s: int| 0 <= s < 3 ==> (#[trigger] r.vb@[s]).next_quad == 0,
            forall|s: int| 0 <= s < 3 ==> (#[trigger] r.vb@[s]).index == 0,
            r.vb@[0].data() == Seq::new(SIDE_BUFFER_QUADS as nat, |i: int| Quad::spec_default()),
            r.vb@[1].data() == Seq::new(num_quads as nat, |i: int| Quad::spec_default()),
            r.vb@[2].data() == Seq::new(SIDE_BUFFER_QUADS as nat, |i: int| Quad::spec_default()),
    {
        let mut vb: Vec<TripleVertexBuffer> = Vec::new();
        vb.push(TripleVertexBuffer::new(SIDE_BUFFER_QUADS));
        vb.push(TripleVertexBuffer::new(num_quads));
        vb.push(TripleVertexBuffer::new(SIDE_BUFFER_QUADS));
        RenderLayer { zindex, vb }
    }
}

/// One retained vertex buffer from a prior frame.
#[derive(Clone, Debug)]
pub struct StoredBuffer {
    pub zindex: i8,
    pub sub_idx: usize,
    pub quads: Vec<Quad>,
}

/// The continuity store: the previous frame's retained buffers and its
/// full ordered list of section quad ranges.  Fully replaced each frame.
#[derive(Clone, Debug)]
pub struct FrameBuffers {
    pub buffers: Vec<StoredBuffer>,
    pub section_ranges: Vec<QuadRange>,
}

/// The retained quads for `(zindex, sub_idx)`, if that slot was stored.
pub open spec fn spec_stored_quads(buffers: Seq<StoredBuffer>, zindex: i8, sub_idx: usize) -> Option<
    Seq<Quad>,
>
    decreases buffers,
{
    if buffers.len() == 0 {
        None
    } else if buffers[0].zindex == zindex && buffers[0].sub_idx == sub_idx {
        Some(buffers[0].quads@)
    } else {
        spec_stored_quads(buffers.skip(1), zindex, sub_idx)
    }
}

impl FrameBuffers {
    /// An empty store: nothing retained.
    pub fn new() -> (r: Self)
        ensures
            r.buffers@.len() == 0,
            r.section_ranges@.len() == 0,
    {
        FrameBuffers { buffers: Vec::new(), section_ranges: Vec::new() }
    }

    /// Looks up the retained buffer for `(zindex, sub_idx)`.
    pub fn buffer(&self, zindex: i8, sub_idx: usize) -> (r: Option<&Vec<Quad>>)
        ensures
            r is Some <==> spec_stored_quads(self.buffers@, zindex, sub_idx) is Some,
            r is Some ==> r->Some_0@ == spec_stored_quads(self.buffers@, zindex, sub_idx)->Some_0,
    {
        proof {
            assert(self.buffers@.skip(0) =~= self.buffers@);
        }
        let n = self.buffers.len();
        let mut i: usize = 0;
        while i < n
            invariant
                n == self.buffers@.len(),
                0 <= i <= n,
                spec_stored_quads(self.buffers@, zindex, sub_idx) == spec_stored_quads(
                    self.buffers@.skip(i as int),
                    zindex,
                    sub_idx,
                ),
            decreases n - i,
        {
            proof {
                assert(self.buffers@.skip(i as int)[0] == self.buffers@[i as int]);
                assert(self.buffers@.skip(i as int).skip(1) =~= self.buffers@.skip(i as int + 1));
            }
            let entry = &self.buffers[i];
            if entry.zindex == zindex && entry.sub_idx == sub_idx {
                return Some(&entry.quads);
            }
            i = i + 1;
        }
        proof {
            assert(self.buffers@.skip(n as int) =~= Seq::<StoredBuffer>::empty());
        }
        None
    }
}

impl Default for FrameBuffers {
    fn default() -> (r: Self)
        ensures
            r.buffers@.len() == 0,
            r.section_ranges@.len() == 0,
    {
        FrameBuffers::new()
    }
}

/// The index of the layer with depth `z`, or -1 when absent.
pub open spec fn find_layer(layers: Seq<RenderLayer>, z: int) -> int
    decreases layers,
{
    if layers.len() == 0 {
        -1
    } else if layers[0].zindex == z {
        0
    } else {
        let r = find_layer(layers.skip(1), z);
        if r == -1 {
            -1
        } else {
            r + 1
        }
    }
}

pub broadcast proof fn lemma_find_layer(layers: Seq<RenderLayer>, z: int)
    ensures
        #[trigger] find_layer(layers, z) == -1 ==> forall|i: int|
            0 <= i < layers.len() ==> (#[trigger] layers[i]).zindex != z,
        find_layer(layers, z) != -1 ==> 0 <= find_layer(layers, z) < layers.len() && layers[
            find_layer(layers, z)
        ].zindex == z,
    decreases layers,
{
    if layers.len() > 0 {
        lemma_find_layer(layers.skip(1), z);
        if find_layer(layers, z) == -1 {
            assert forall|i: int| 0 <= i < layers.len() implies (#[trigger] layers[i]).zindex
                != z by {
                if i > 0 {
                    assert(layers.skip(1)[i - 1] == layers[i]);
                }
            }
        } else {
            if layers[0].zindex != z {
                assert(layers.skip(1)[find_layer(layers.skip(1), z)] == layers[find_layer(
                    layers,
                    z,
                )]);
            }
        }
    }
}

/// When two layer lists carry the same depth at every index, lookups by
/// depth land on the same index in both.
pub proof fn lemma_find_layer_same(a: Seq<RenderLayer>, b: Seq<RenderLayer>, z: int)
    requires
        a.len() == b.len(),
        forall|i: int| 0 <= i < a.len() ==> (#[trigger] a[i]).zindex == b[i].zindex,
    ensures
        find_layer(a, z) == find_layer(b, z),
    decreases a,
{
    if a.len() > 0 {
        assert forall|i: int| 0 <= i < a.skip(1).len() implies (#[trigger] a.skip(1)[i]).zindex
            == b.skip(1)[i].zindex by {
            assert(a.skip(1)[i] == a[i + 1]);
            assert(b.skip(1)[i] == b[i + 1]);
        }
        lemma_find_layer_same(a.skip(1), b.skip(1), z);
    }
}

/// The arena: the live layers sorted by depth, and the continuity store
/// surviving from the previous frame.
#[derive(Debug)]
pub struct RenderState {
    pub layers: Vec<RenderLayer>,
    pub prev_frame_buffers: Option<FrameBuffers>,
}

impl RenderState {
    /// Layers are well formed and strictly sorted by depth, so iteration
    /// order equals paint order and depths are unique.
    pub open spec fn wf(self) -> bool {
        &&& forall|i: int| 0 <= i < self.layers@.len() ==> (#[trigger] self.layers@[i]).wf()
        &&& forall|i: int, j: int|
            0 <= i < j < self.layers@.len() ==> self.layers@[i].zindex < self.layers@[j].zindex
    }

    pub open spec fn has_layer(self, z: int) -> bool {
        find_layer(self.layers@, z) >= 0
    }

    /// The bump cursor of `(z, s)`; a missing layer holds zero quads.
    pub open spec fn count(self, z: int, s: int) -> int {
        let i = find_layer(self.layers@, z);
        if i >= 0 && 0 <= s < 3 {
            self.layers@[i].vb@[s].next_quad as int
        } else {
            0
        }
    }

    /// The quad capacity of `(z, s)`; zero for a missing layer.
    pub open spec fn cap(self, z: int, s: int) -> int {
        let i = find_layer(self.layers@, z);
        if i >= 0 && 0 <= s < 3 {
            self.layers@[i].vb@[s].capacity as int
        } else {
            0
        }
    }

    /// The quads of the buffer currently written for `(z, s)`.
    pub open spec fn slot_data(self, z: int, s: int) -> Seq<Quad> {
        let i = find_layer(self.layers@, z);
        if i >= 0 && 0 <= s < 3 {
            self.layers@[i].vb@[s].data()
        } else {
            Seq::empty()
        }
    }

    /// A fresh arena: the main layer at depth zero and an empty store.
    pub fn new() -> (r: Self)
        ensures
            r.wf(),
            r.layers@.len() == 1,
            r.layers@[0].zindex == 0,
            forall|z: int, s: int| r.count(z, s) == 0,
            r.cap(0, 1) == MAIN_LAYER_QUADS,
            r.prev_frame_buffers is None,
    {
        let mut layers: Vec<RenderLayer> = Vec::new();
        layers.push(RenderLayer::new(MAIN_LAYER_QUADS, 0));
        let r = RenderState { layers, prev_frame_buffers: None };
        proof {
            assert forall|z: int, s: int| r.count(z, s) == 0 by {
                lemma_find_layer(r.layers@, z);
            }
        }
        r
    }

    /// The layer for depth `zindex`, created with the default capacity
    /// and spliced in depth order if absent.  Returns its index.  Counts
    /// are unaffected: a new layer holds no quads.
    #[verifier::loop_isolation(false)]
    pub fn layer_for_zindex(&mut self, zindex: i8) -> (idx: usize)
        requires
            old(self).wf(),
        ensures
            final(self).wf(),
            idx < final(self).layers@.len(),
            final(self).layers@[idx as int].zindex == zindex,
            find_layer(final(self).layers@, zindex as int) == idx,
            final(self).prev_frame_buffers == old(self).prev_frame_buffers,
            forall|z: int, s: int| final(self).count(z, s) == old(self).count(z, s),
            forall|z: int, s: int|
                z != zindex ==> final(self).cap(z, s) == old(self).cap(z, s)
                    && final(self).slot_data(z, s) == old(self).slot_data(z, s),
            old(self).has_layer(zindex as int) ==> *final(self) == *old(self),
            !old(self).has_layer(zindex as int) ==> {
                &&& final(self).cap(zindex as int, 0) == SIDE_BUFFER_QUADS
                &&& final(self).cap(zindex as int, 1) == DEFAULT_LAYER_QUADS
                &&& final(self).cap(zindex as int, 2) == SIDE_BUFFER_QUADS
                &&& forall|s: int|
                    0 <= s < 3 ==> #[trigger] final(self).slot_data(zindex as int, s)
                        == spec_new_layer_data(s)
            },
            final(self).has_layer(zindex as int),
            forall|z: int|
                z != zindex ==> (final(self).has_layer(z) <==> old(self).has_layer(z)),
    {
        proof {
            broadcast use lemma_find_layer;
        }
        let n = self.layers.len();
        let mut i: usize = 0;
        // First pass: return an existing layer.
        while i < n
            invariant
                n == self.layers@.len(),
                0 <= i <= n,
                forall|j: int| 0 <= j < i ==> (#[trigger] self.layers@[j]).zindex != zindex,
            decreases n - i,
        {
            if self.layers[i].zindex == zindex {
                proof {
                    lemma_find_layer_at(self.layers@, zindex as int, i as int);
                }
                return i;
            }
            i = i + 1;
        }
        // Second pass: find the sorted insertion point.
        let mut pos: usize = 0;
        while pos < n && self.layers[pos].zindex < zindex
            invariant
                0 <= pos <= n,
                forall|j: int| 0 <= j < pos ==> (#[trigger] self.layers@[j]).zindex < zindex,
            decreases n - pos,
        {
            pos = pos + 1;
        }
        let ghost before = self.layers@;
        let layer = RenderLayer::new(DEFAULT_LAYER_QUADS, zindex);
        self.layers.insert(pos, layer);
        proof {
            assert forall|j: int| pos <= j < before.len() implies (#[trigger] before[j]).zindex
                > zindex by {
                if j > pos {
                    assert(before[pos as int].zindex < before[j].zindex);
                }
            }
            lemma_layer_insert(before, self.layers@, layer, pos as int, zindex as int);
            assert forall|z: int, s: int| self.count(z, s) == old(self).count(z, s) by {
                lemma_find_layer(before, z);
                lemma_find_layer(self.layers@, z);
            }
        }
        pos
    }
}

/// The needed quad count rounded up to the next multiple of the
/// allocation tile.
pub open spec fn spec_round_up_tile(n: int) -> int {
    ((n + QUAD_ALLOCATION_TILE - 1) / (QUAD_ALLOCATION_TILE as int)) * (QUAD_ALLOCATION_TILE as int)
}

/// Rounding up to the tile yields at least the request, and a multiple of
/// the tile.
pub proof fn lemma_round_up_tile(n: int)
    requires
        0 <= n,
    ensures
        spec_round_up_tile(n) >= n,
        spec_round_up_tile(n) < n + QUAD_ALLOCATION_TILE,
        spec_round_up_tile(n) % (QUAD_ALLOCATION_TILE as int) == 0,
{
    let t = QUAD_ALLOCATION_TILE as int;
    let m = n + t - 1;
    vstd::arithmetic::div_mod::lemma_fundamental_div_mod(m, t);
    vstd::arithmetic::div_mod::lemma_mod_bound(m, t);
    vstd::arithmetic::div_mod::lemma_mod_multiples_basic(m / t, t);
}

impl RenderState {
    /// Writes one quad into sub-buffer `sub` of the layer at `idx`,
    /// advancing that slot's bump cursor; past capacity the write lands on
    /// quad zero and the shortfall is reported after the pass.
    pub fn allocate_quad(&mut self, idx: usize, sub: usize, q: Quad)
        requires
            old(self).wf(),
            idx < old(self).layers@.len(),
            sub < 3,
            old(self).layers@[idx as int].vb@[sub as int].next_quad < usize::MAX,
        ensures
            final(self).wf(),
            final(self).prev_frame_buffers == old(self).prev_frame_buffers,
            final(self).layers@.len() == old(self).layers@.len(),
            forall|i: int|
                0 <= i < old(self).layers@.len() ==> (#[trigger] final(self).layers@[i]).zindex
                    == old(self).layers@[i].zindex,
            forall|z: int, s: int|
                final(self).count(z, s) == old(self).count(z, s) + if z == old(
                    self,
                ).layers@[idx as int].zindex && s == sub {
                    1int
                } else {
                    0int
                },
            forall|z: int, s: int| final(self).cap(z, s) == old(self).cap(z, s),
            forall|z: int| final(self).has_layer(z) <==> old(self).has_layer(z),
            forall|z: int, s: int|
                !(z == old(self).layers@[idx as int].zindex && s == sub) ==> final(self).slot_data(
                    z,
                    s,
                ) == old(self).slot_data(z, s),
            final(self).slot_data(old(self).layers@[idx as int].zindex as int, sub as int) == old(
                self,
            ).slot_data(old(self).layers@[idx as int].zindex as int, sub as int).update(
                if old(self).count(old(self).layers@[idx as int].zindex as int, sub as int) < old(
                    self,
                ).cap(old(self).layers@[idx as int].zindex as int, sub as int) {
                    old(self).count(old(self).layers@[idx as int].zindex as int, sub as int)
                } else {
                    0
                },
                q,
            ),
    {
        let ghost zq: int = old(self).layers@[idx as int].zindex as int;
        let layer = &mut self.layers[idx];
        let tvb = &mut layer.vb[sub];
        tvb.write_quad(q);
        proof {
            assert forall|j: int| 0 <= j < idx implies (#[trigger] old(self).layers@[j]).zindex
                != zq by {
                assert(old(self).layers@[j].zindex < old(self).layers@[idx as int].zindex);
            }
            lemma_find_layer_at(old(self).layers@, zq, idx as int);
            lemma_find_layer_same(old(self).layers@, self.layers@, zq);
            assert forall|z: int, s: int|
                self.count(z, s) == old(self).count(z, s) + (if z == zq && s == sub {
                    1int
                } else {
                    0int
                }) by {
                lemma_find_layer_same(old(self).layers@, self.layers@, z);
                lemma_find_layer(old(self).layers@, z);
            }
            assert forall|z: int, s: int| self.cap(z, s) == old(self).cap(z, s) by {
                lemma_find_layer_same(old(self).layers@, self.layers@, z);
                lemma_find_layer(old(self).layers@, z);
            }
            assert forall|z: int| self.has_layer(z) <==> old(self).has_layer(z) by {
                lemma_find_layer_same(old(self).layers@, self.layers@, z);
            }
            assert forall|z: int, s: int|
                !(z == zq && s == sub) implies self.slot_data(z, s) == old(self).slot_data(
                z,
                s,
            ) by {
                lemma_find_layer_same(old(self).layers@, self.layers@, z);
                lemma_find_layer(old(self).layers@, z);
            }
        }
    }

    /// Reserves `delta` quads in sub-buffer `sub` of the layer at `idx`
    /// without writing them.
    pub fn advance_slot(&mut self, idx: usize, sub: usize, delta: usize)
        requires
            old(self).wf(),
            idx < old(self).layers@.len(),
            sub < 3,
            old(self).layers@[idx as int].vb@[sub as int].next_quad + delta <= usize::MAX,
        ensures
            final(self).wf(),
            final(self).prev_frame_buffers == old(self).prev_frame_buffers,
            final(self).layers@.len() == old(self).layers@.len(),
            forall|i: int|
                0 <= i < old(self).layers@.len() ==> (#[trigger] final(self).layers@[i]).zindex
                    == old(self).layers@[i].zindex,
            forall|z: int, s: int|
                #[trigger] final(self).count(z, s) == old(self).count(z, s) + if z == old(
                    self,
                ).layers@[idx as int].zindex && s == sub {
                    delta as int
                } else {
                    0int
                },
            forall|z: int, s: int| #[trigger] final(self).cap(z, s) == old(self).cap(z, s),
            forall|z: int| final(self).has_layer(z) <==> old(self).has_layer(z),
            forall|z: int, s: int| #[trigger] final(self).slot_data(z, s) == old(self).slot_data(z, s),
    {
        let ghost zq: int = old(self).layers@[idx as int].zindex as int;
        let layer = &mut self.layers[idx];
        let tvb = &mut layer.vb[sub];
        tvb.advance_quad_count(delta);
        proof {
            assert forall|j: int| 0 <= j < idx implies (#[trigger] old(self).layers@[j]).zindex
                != zq by {
                assert(old(self).layers@[j].zindex < old(self).layers@[idx as int].zindex);
            }
            lemma_find_layer_at(old(self).layers@, zq, idx as int);
            lemma_find_layer_same(old(self).layers@, self.layers@, zq);
            assert forall|z: int, s: int|
                #[trigger] self.count(z, s) == old(self).count(z, s) + (if z == zq && s == sub {
                    delta as int
                } else {
                    0int
                }) by {
                lemma_find_layer_same(old(self).layers@, self.layers@, z);
                lemma_find_layer(old(self).layers@, z);
            }
            assert forall|z: int, s: int| #[trigger] self.cap(z, s) == old(self).cap(z, s) by {
                lemma_find_layer_same(old(self).layers@, self.layers@, z);
                lemma_find_layer(old(self).layers@, z);
            }
            assert forall|z: int| self.has_layer(z) <==> old(self).has_layer(z) by {
                lemma_find_layer_same(old(self).layers@, self.layers@, z);
            }
            assert forall|z: int, s: int|
                #[trigger] self.slot_data(z, s) == old(self).slot_data(z, s) by {
                lemma_find_layer_same(old(self).layers@, self.layers@, z);
                lemma_find_layer(old(self).layers@, z);
            }
        }
    }

    /// Resets every slot's bump cursor to zero at the start of a frame.
    #[verifier::loop_isolation(false)]
    pub fn clear_quad_allocation(&mut self)
        requires
            old(self).wf(),
        ensures
            final(self).wf(),
            final(self).prev_frame_buffers == old(self).prev_frame_buffers,
            final(self).layers@.len() == old(self).layers@.len(),
            forall|i: int|
                0 <= i < old(self).layers@.len() ==> (#[trigger] final(self).layers@[i]).zindex
                    == old(self).layers@[i].zindex,
            forall|z: int, s: int| final(self).count(z, s) == 0,
            forall|z: int, s: int| final(self).cap(z, s) == old(self).cap(z, s),
            forall|z: int, s: int| final(self).slot_data(z, s) == old(self).slot_data(z, s),
    {
        let n = self.layers.len();
        let mut i: usize = 0;
        while i < n
            invariant
                n == self.layers@.len(),
                0 <= i <= n,
                self.layers@.len() == old(self).layers@.len(),
                forall|k: int|
                    0 <= k < n ==> (#[trigger] self.layers@[k]).zindex == old(
                        self,
                    ).layers@[k].zindex,
                forall|k: int|
                    i <= k < n ==> (#[trigger] self.layers@[k]) == old(self).layers@[k],
                forall|k: int| 0 <= k < n ==> (#[trigger] self.layers@[k]).wf(),
                forall|k: int, s: int|
                    0 <= k < i && 0 <= s < 3 ==> (#[trigger] self.layers@[k].vb@[s]).next_quad
                        == 0,
                forall|k: int, s: int|
                    0 <= k < n && 0 <= s < 3 ==> (#[trigger] self.layers@[k].vb@[s]).capacity
                        == old(self).layers@[k].vb@[s].capacity && self.layers@[k].vb@[s].index
                        == old(self).layers@[k].vb@[s].index && self.layers@[k].vb@[s].bufs == old(
                        self,
                    ).layers@[k].vb@[s].bufs,
                self.prev_frame_buffers == old(self).prev_frame_buffers,
            decreases n - i,
        {
            let layer = &mut self.layers[i];
            let mut s: usize = 0;
            while s < 3
                invariant
                    0 <= s <= 3,
                    layer.wf(),
                    layer.zindex == old(self).layers@[i as int].zindex,
                    layer.vb@.len() == 3,
                    forall|t: int| 0 <= t < s ==> (#[trigger] layer.vb@[t]).next_quad == 0,
                    forall|t: int|
                        0 <= t < 3 ==> (#[trigger] layer.vb@[t]).capacity == old(
                            self,
                        ).layers@[i as int].vb@[t].capacity && layer.vb@[t].index == old(
                            self,
                        ).layers@[i as int].vb@[t].index && layer.vb@[t].bufs == old(
                            self,
                        ).layers@[i as int].vb@[t].bufs,
                decreases 3 - s,
            {
                let tvb = &mut layer.vb[s];
                tvb.clear_quad_allocation();
                s = s + 1;
            }
            i = i + 1;
        }
        proof {
            assert forall|z: int, s: int| self.count(z, s) == 0 by {
                lemma_find_layer(self.layers@, z);
            }
            assert forall|z: int, s: int| self.cap(z, s) == old(self).cap(z, s) by {
                lemma_find_layer_same(old(self).layers@, self.layers@, z);
                lemma_find_layer(old(self).layers@, z);
            }
            assert forall|z: int, s: int|
                self.slot_data(z, s) == old(self).slot_data(z, s) by {
                lemma_find_layer_same(old(self).layers@, self.layers@, z);
                lemma_find_layer(old(self).layers@, z);
            }
        }
    }

    /// After a pass, grows every slot whose cursor ran past its capacity,
    /// rounding the needed count up to the next allocation tile and
    /// replacing that slot's buffers.  Returns whether anything grew; the
    /// caller must then discard the pass's output and re-run it.
    #[verifier::loop_isolation(false)]
    pub fn allocated_more_quads(&mut self) -> (grew: bool)
        requires
            old(self).wf(),
            forall|i: int, s: int|
                0 <= i < old(self).layers@.len() && 0 <= s < 3 ==> (#[trigger] old(
                    self,
                ).layers@[i].vb@[s]).next_quad <= usize::MAX - QUAD_ALLOCATION_TILE,
        ensures
            final(self).wf(),
            final(self).prev_frame_buffers == old(self).prev_frame_buffers,
            final(self).layers@.len() == old(self).layers@.len(),
            forall|i: int|
                0 <= i < old(self).layers@.len() ==> (#[trigger] final(self).layers@[i]).zindex
                    == old(self).layers@[i].zindex,
            grew == exists|i: int, s: int|
                0 <= i < old(self).layers@.len() && 0 <= s < 3 && (#[trigger] old(
                    self,
                ).layers@[i].vb@[s]).next_quad > old(self).layers@[i].vb@[s].capacity,
            forall|i: int, s: int|
                0 <= i < old(self).layers@.len() && 0 <= s < 3 ==> {
                    let o = (#[trigger] old(self).layers@[i].vb@[s]);
                    let f = final(self).layers@[i].vb@[s];
                    if o.next_quad > o.capacity {
                        &&& f.capacity == spec_round_up_tile(o.next_quad as int)
                        &&& f.next_quad == 0
                        &&& f.index == 0
                    } else {
                        f == o
                    }
                },
    {
        let mut grew = false;
        let n = self.layers.len();
        let mut i: usize = 0;
        while i < n
            invariant
                n == self.layers@.len(),
                0 <= i <= n,
                self.layers@.len() == old(self).layers@.len(),
                self.prev_frame_buffers == old(self).prev_frame_buffers,
                forall|k: int|
                    0 <= k < n ==> (#[trigger] self.layers@[k]).zindex == old(
                        self,
                    ).layers@[k].zindex,
                forall|k: int| 0 <= k < n ==> (#[trigger] self.layers@[k]).wf(),
                forall|k: int| i <= k < n ==> (#[trigger] self.layers@[k]) == old(self).layers@[k],
                grew == exists|k: int, s: int|
                    0 <= k < i && 0 <= s < 3 && (#[trigger] old(self).layers@[k].vb@[s]).next_quad
                        > old(self).layers@[k].vb@[s].capacity,
                forall|k: int, s: int|
                    0 <= k < i && 0 <= s < 3 ==> {
                        let o = (#[trigger] old(self).layers@[k].vb@[s]);
                        let f = self.layers@[k].vb@[s];
                        if o.next_quad > o.capacity {
                            &&& f.capacity == spec_round_up_tile(o.next_quad as int)
                            &&& f.next_quad == 0
                            &&& f.index == 0
                        } else {
                            f == o
                        }
                    },
            decreases n - i,
        {
            let layer = &mut self.layers[i];
            let mut s: usize = 0;
            let mut layer_grew = false;
            while s < 3
                invariant
                    0 <= s <= 3,
                    layer.wf(),
                    layer.zindex == old(self).layers@[i as int].zindex,
                    layer.vb@.len() == 3,
                    layer_grew == exists|t: int|
                        0 <= t < s && (#[trigger] old(self).layers@[i as int].vb@[t]).next_quad
                            > old(self).layers@[i as int].vb@[t].capacity,
                    forall|t: int|
                        s <= t < 3 ==> (#[trigger] layer.vb@[t]) == old(
                            self,
                        ).layers@[i as int].vb@[t],
                    forall|t: int|
                        0 <= t < s ==> {
                            let o = (#[trigger] old(self).layers@[i as int].vb@[t]);
                            let f = layer.vb@[t];
                            if o.next_quad > o.capacity {
                                &&& f.capacity == spec_round_up_tile(o.next_quad as int)
                                &&& f.next_quad == 0
                                &&& f.index == 0
                            } else {
                                f == o
                            }
                        },
                decreases 3 - s,
            {
                let need = {
                    let tvb = &layer.vb[s];
                    if tvb.next_quad > tvb.capacity {
                        Some(tvb.next_quad)
                    } else {
                        None
                    }
                };
                match need {
                    Some(need_quads) => {
                        let num_quads = ((need_quads + (QUAD_ALLOCATION_TILE - 1))
                            / QUAD_ALLOCATION_TILE) * QUAD_ALLOCATION_TILE;
                        proof {
                            lemma_round_up_tile(need_quads as int);
                        }
                        let fresh = TripleVertexBuffer::new(num_quads);
                        layer.vb[s] = fresh;
                        layer_grew = true;
                    },
                    None => {},
                }
                s = s + 1;
            }
            if layer_grew {
                grew = true;
            }
            i = i + 1;
        }
        grew
    }
}

/// A snapshot entry for one slot of one layer.
pub open spec fn spec_layer_snap(l: RenderLayer, s: int) -> LayerQuadSnapshot {
    LayerQuadSnapshot {
        zindex: l.zindex,
        sub_idx: s as usize,
        quad_count: l.vb@[s].next_quad,
    }
}

/// The full snapshot: three entries per live layer, in depth order.
pub open spec fn spec_snapshots(layers: Seq<RenderLayer>) -> Seq<LayerQuadSnapshot>
    decreases layers,
{
    if layers.len() == 0 {
        Seq::empty()
    } else {
        seq![
            spec_layer_snap(layers[0], 0),
            spec_layer_snap(layers[0], 1),
            spec_layer_snap(layers[0], 2),
        ] + spec_snapshots(layers.skip(1))
    }
}

proof fn lemma_snapshots_take_step(layers: Seq<RenderLayer>, i: int)
    requires
        0 <= i < layers.len(),
    ensures
        spec_snapshots(layers.take(i + 1)) == spec_snapshots(layers.take(i)) + seq![
            spec_layer_snap(layers[i], 0),
            spec_layer_snap(layers[i], 1),
            spec_layer_snap(layers[i], 2),
        ],
    decreases i,
{
    let a = layers.take(i + 1);
    let b = layers.take(i);
    let snaps = seq![
        spec_layer_snap(layers[i], 0),
        spec_layer_snap(layers[i], 1),
        spec_layer_snap(layers[i], 2),
    ];
    if i == 0 {
        assert(a =~= seq![layers[0]]);
        assert(b =~= Seq::<RenderLayer>::empty());
        assert(a.skip(1) =~= Seq::<RenderLayer>::empty());
        assert(a[0] == layers[0]);
        assert(spec_snapshots(a.skip(1)) =~= Seq::<LayerQuadSnapshot>::empty());
        assert(spec_snapshots(b) =~= Seq::<LayerQuadSnapshot>::empty());
        assert(spec_snapshots(a) =~= snaps + Seq::<LayerQuadSnapshot>::empty());
        assert(snaps + Seq::<LayerQuadSnapshot>::empty() =~= Seq::<LayerQuadSnapshot>::empty()
            + snaps);
    } else {
        lemma_snapshots_take_step(layers.skip(1), i - 1);
        assert(a.skip(1) =~= layers.skip(1).take(i));
        assert(b.skip(1) =~= layers.skip(1).take(i - 1));
        assert(a[0] == layers[0] && b[0] == layers[0]);
        assert(layers.skip(1)[i - 1] == layers[i]);
        let head = seq![
            spec_layer_snap(layers[0], 0),
            spec_layer_snap(layers[0], 1),
            spec_layer_snap(layers[0], 2),
        ];
        assert(head + (spec_snapshots(layers.skip(1).take(i - 1)) + snaps) =~= (head
            + spec_snapshots(layers.skip(1).take(i - 1))) + snaps);
    }
}

/// Captures the quad count of every live layer slot, three entries per
/// layer, in depth order.
#[verifier::loop_isolation(false)]
pub fn snapshot_layers(render_state: &RenderState) -> (r: Vec<LayerQuadSnapshot>)
    requires
        render_state.wf(),
    ensures
        r@ == spec_snapshots(render_state.layers@),
{
    let layers = &render_state.layers;
    let n = layers.len();
    let mut snaps: Vec<LayerQuadSnapshot> = Vec::new();
    let mut i: usize = 0;
    proof {
        assert(spec_snapshots(layers@.take(0)) =~= Seq::<LayerQuadSnapshot>::empty());
    }
    while i < n
        invariant
            n == layers@.len(),
            0 <= i <= n,
            snaps@ == spec_snapshots(layers@.take(i as int)),
        decreases n - i,
    {
        proof {
            lemma_snapshots_take_step(layers@, i as int);
        }
        let layer = &layers[i];
        let mut s: usize = 0;
        while s < 3
            invariant
                0 <= s <= 3,
                snaps@ == spec_snapshots(layers@.take(i as int)) + Seq::new(
                    s as nat,
                    |t: int| spec_layer_snap(layers@[i as int], t),
                ),
            decreases 3 - s,
        {
            snaps.push(
                LayerQuadSnapshot {
                    zindex: layer.zindex,
                    sub_idx: s,
                    quad_count: layer.vb[s].next_quad,
                },
            );
            proof {
                assert(snaps@ =~= spec_snapshots(layers@.take(i as int)) + Seq::new(
                    (s + 1) as nat,
                    |t: int| spec_layer_snap(layers@[i as int], t),
                ));
            }
            s = s + 1;
        }
        proof {
            assert(Seq::new(3nat, |t: int| spec_layer_snap(layers@[i as int], t)) =~= seq![
                spec_layer_snap(layers@[i as int], 0),
                spec_layer_snap(layers@[i as int], 1),
                spec_layer_snap(layers@[i as int], 2),
            ]);
        }
        i = i + 1;
    }
    proof {
        assert(layers@.take(n as int) =~= layers@);
    }
    snaps
}

/// The snapshot lookup agrees with the arena's own count for every slot:
/// a missing layer or an out-of-range sub-buffer counts zero.
pub proof fn lemma_snapshot_count(layers: Seq<RenderLayer>, z: i8, s: usize)
    ensures
        spec_quad_count(spec_snapshots(layers), z, s) == {
            let i = find_layer(layers, z as int);
            if i >= 0 && (s as int) < 3 {
                layers[i].vb@[s as int].next_quad as int
            } else {
                0
            }
        },
    decreases layers,
{
    broadcast use lemma_find_layer;

    if layers.len() == 0 {
    } else {
        let l0 = layers[0];
        let head = seq![
            spec_layer_snap(l0, 0),
            spec_layer_snap(l0, 1),
            spec_layer_snap(l0, 2),
        ];
        let rest = spec_snapshots(layers.skip(1));
        let full = head + rest;
        assert(spec_snapshots(layers) == full);
        lemma_snapshot_count(layers.skip(1), z, s);
        let f1 = full.skip(1);
        let f2 = full.skip(1).skip(1);
        let f3 = full.skip(1).skip(1).skip(1);
        assert(full[0] == spec_layer_snap(l0, 0));
        assert(f1 =~= seq![spec_layer_snap(l0, 1), spec_layer_snap(l0, 2)] + rest);
        assert(f1[0] == spec_layer_snap(l0, 1));
        assert(f2 =~= seq![spec_layer_snap(l0, 2)] + rest);
        assert(f2[0] == spec_layer_snap(l0, 2));
        assert(f3 =~= rest);
        if l0.zindex == z {
            assert(find_layer(layers, z as int) == 0);
            if s == 0 {
                assert(spec_quad_count(full, z, s) == l0.vb@[0].next_quad);
            } else if s == 1 {
                assert(spec_quad_count(full, z, s) == spec_quad_count(f1, z, s));
                assert(spec_quad_count(f1, z, s) == l0.vb@[1].next_quad);
            } else if s == 2 {
                assert(spec_quad_count(full, z, s) == spec_quad_count(f1, z, s));
                assert(spec_quad_count(f1, z, s) == spec_quad_count(f2, z, s));
                assert(spec_quad_count(f2, z, s) == l0.vb@[2].next_quad);
            } else {
                assert(spec_quad_count(full, z, s) == spec_quad_count(f1, z, s));
                assert(spec_quad_count(f1, z, s) == spec_quad_count(f2, z, s));
                assert(spec_quad_count(f2, z, s) == spec_quad_count(rest, z, s));
                assert(find_layer(layers.skip(1), z as int) == -1 || (s as int) >= 3);
            }
        } else {
            assert(spec_quad_count(full, z, s) == spec_quad_count(f1, z, s));
            assert(spec_quad_count(f1, z, s) == spec_quad_count(f2, z, s));
            assert(spec_quad_count(f2, z, s) == spec_quad_count(rest, z, s));
            let fs = find_layer(layers.skip(1), z as int);
            if fs != -1 {
                assert(layers.skip(1)[fs] == layers[fs + 1]);
                assert(find_layer(layers, z as int) == fs + 1);
            } else {
                assert(find_layer(layers, z as int) == -1);
            }
        }
    }
}

/// In a well-formed arena, a live slot's data is exactly its capacity
/// long.
pub proof fn lemma_slot_data_len(state: RenderState, z: int, s: int)
    requires
        state.wf(),
        find_layer(state.layers@, z) >= 0,
        0 <= s < 3,
    ensures
        state.slot_data(z, s).len() == state.cap(z, s),
{
    lemma_find_layer(state.layers@, z);
}

/// `lemma_find_layer_at`, exported for callers outside this module.
pub proof fn lemma_find_layer_at_pub(layers: Seq<RenderLayer>, z: int, i: int)
    requires
        0 <= i < layers.len(),
        layers[i].zindex == z,
        forall|j: int| 0 <= j < i ==> (#[trigger] layers[j]).zindex != z,
    ensures
        find_layer(layers, z) == i,
{
    lemma_find_layer_at(layers, z, i);
}

/// Pins down `find_layer` when a matching index is known and all earlier
/// indices miss.
proof fn lemma_find_layer_at(layers: Seq<RenderLayer>, z: int, i: int)
    requires
        0 <= i < layers.len(),
        layers[i].zindex == z,
        forall|j: int| 0 <= j < i ==> (#[trigger] layers[j]).zindex != z,
    ensures
        find_layer(layers, z) == i,
    decreases i,
{
    if i > 0 {
        assert forall|j: int| 0 <= j < i - 1 implies (#[trigger] layers.skip(1)[j]).zindex != z by {
            assert(layers.skip(1)[j] == layers[j + 1]);
        }
        assert(layers.skip(1)[i - 1] == layers[i]);
        lemma_find_layer_at(layers.skip(1), z, i - 1);
    }
}

/// What inserting a fresh, empty layer at its sorted position does to the
/// lookup functions: the new depth resolves to the new layer, and every
/// other depth resolves to the same layer as before.
proof fn lemma_layer_insert(
    before: Seq<RenderLayer>,
    after: Seq<RenderLayer>,
    layer: RenderLayer,
    pos: int,
    z: int,
)
    requires
        0 <= pos <= before.len(),
        after == before.insert(pos, layer),
        layer.zindex == z,
        forall|j: int| 0 <= j < pos ==> (#[trigger] before[j]).zindex < z,
        forall|j: int| pos <= j < before.len() ==> (#[trigger] before[j]).zindex > z,
    ensures
        find_layer(after, z) == pos,
        forall|z2: int|
            z2 != z ==> {
                let fb = find_layer(before, z2);
                let fa = #[trigger] find_layer(after, z2);
                if fb == -1 {
                    fa == -1
                } else if fb < pos {
                    fa == fb && after[fa] == before[fb]
                } else {
                    fa == fb + 1 && after[fa] == before[fb]
                }
            },
    decreases pos, before.len(),
{
    broadcast use lemma_find_layer;

    if pos == 0 {
        assert(after[0] == layer);
        assert(after.skip(1) =~= before);
        assert forall|z2: int| z2 != z implies {
            let fb = find_layer(before, z2);
            let fa = #[trigger] find_layer(after, z2);
            if fb == -1 {
                fa == -1
            } else if fb < pos {
                fa == fb && after[fa] == before[fb]
            } else {
                fa == fb + 1 && after[fa] == before[fb]
            }
        } by {
            let fb = find_layer(before, z2);
            if fb != -1 {
                assert(after[fb + 1] == after.skip(1)[fb]);
            }
        }
    } else {
        assert(after[0] == before[0]);
        assert(after.skip(1) =~= before.skip(1).insert(pos - 1, layer));
        assert forall|j: int| 0 <= j < pos - 1 implies (#[trigger] before.skip(1)[j]).zindex
            < z by {
            assert(before.skip(1)[j] == before[j + 1]);
        }
        assert forall|j: int| pos - 1 <= j < before.skip(1).len() implies (#[trigger] before.skip(
            1,
        )[j]).zindex > z by {
            assert(before.skip(1)[j] == before[j + 1]);
        }
        lemma_layer_insert(before.skip(1), after.skip(1), layer, pos - 1, z);
        assert(before[0].zindex < z);
        assert forall|z2: int| z2 != z implies {
            let fb = find_layer(before, z2);
            let fa = #[trigger] find_layer(after, z2);
            if fb == -1 {
                fa == -1
            } else if fb < pos {
                fa == fb && after[fa] == before[fb]
            } else {
                fa == fb + 1 && after[fa] == before[fb]
            }
        } by {
            let fb = find_layer(before, z2);
            let fa = find_layer(after, z2);
            if before[0].zindex == z2 {
            } else {
                let fbs = find_layer(before.skip(1), z2);
                let fas = find_layer(after.skip(1), z2);
                if fbs != -1 {
                    assert(before[fbs + 1] == before.skip(1)[fbs]);
                    assert(after[fas + 1] == after.skip(1)[fas]);
                }
            }
        }
    }
}

} // verus!
