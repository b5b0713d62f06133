//! The draw pass decision: one indexed draw call per section and layer
//! slot, replaying a skipped section from the previous frame's retained
//! buffer, and handing this frame's buffers to the continuity store.

use vstd::prelude::*;
use crate::arena::{
    spec_stored_quads, FrameBuffers, Quad, RenderLayer, RenderState, StoredBuffer,
    INDICES_PER_QUAD,
};
use crate::plan::{
    quad_count_for_snapshot, spec_quad_count, QuadRange, RenderPlan, RenderSection, ScissorRect,
};
use crate::termwindow::TermWindow;

verus! {

/// Where a draw call's vertex data lives.
#[derive(Clone, Copy, Debug, PartialEq, Eq, Structural)]
pub enum DrawSource {
    /// The buffer written this frame.
    CurrentFrame,
    /// The buffer retained from the previous frame.
    PreviousFrame,
}

/// One indexed draw call the GPU backend should issue, bounded by a
/// scissor rectangle.
#[derive(Clone, Copy, Debug, PartialEq, Eq, Structural)]
pub struct DrawCall {
    pub zindex: i8,
    pub sub_idx: usize,
    /// First index into the shared index buffer.
    pub first_index: usize,
    /// One past the last index.
    pub end_index: usize,
    /// Absent means the full viewport.
    pub scissor: Option<ScissorRect>,
    pub source: DrawSource,
}

/// The quad range a section wrote into `(zindex, sub_idx)`, when it wrote
/// anything there.
pub fn quad_range_for_section(range: &QuadRange, zindex: i8, sub_idx: usize) -> (r: Option<
    (usize, usize),
>)
    ensures
        r is Some <==> spec_quad_count(range.end@, zindex, sub_idx) > spec_quad_count(
            range.start@,
            zindex,
            sub_idx,
        ),
        r is Some ==> r->Some_0.0 == spec_quad_count(range.start@, zindex, sub_idx)
            && r->Some_0.1 == spec_quad_count(range.end@, zindex, sub_idx),
{
    let start_quad = quad_count_for_snapshot(range.start.as_slice(), zindex, sub_idx);
    let end_quad = quad_count_for_snapshot(range.end.as_slice(), zindex, sub_idx);
    if end_quad > start_quad {
        Some((start_quad, end_quad))
    } else {
        None
    }
}

/// The draw call section `idx` contributes for slot `(z, s)`, if any: a
/// skippable section replays its previously recorded range from the
/// retained buffer when both are still present; any other section draws
/// the range it wrote this frame; empty ranges, zero-area scissors and
/// index counts past the machine limit contribute nothing.
pub open spec fn spec_section_call(
    sections: Seq<RenderSection>,
    store: Option<FrameBuffers>,
    idx: int,
    z: i8,
    s: usize,
    vw: u32,
    vh: u32,
) -> Option<DrawCall> {
    let sec = sections[idx];
    let range: Option<(int, int)> = if sec.skippable {
        if store is Some && idx < store->Some_0.section_ranges@.len() && spec_quad_count(
            store->Some_0.section_ranges@[idx].end@,
            z,
            s,
        ) > spec_quad_count(store->Some_0.section_ranges@[idx].start@, z, s) && spec_stored_quads(
            store->Some_0.buffers@,
            z,
            s,
        ) is Some {
            Some(
                (
                    spec_quad_count(store->Some_0.section_ranges@[idx].start@, z, s) as int,
                    spec_quad_count(store->Some_0.section_ranges@[idx].end@, z, s) as int,
                ),
            )
        } else {
            None
        }
    } else {
        if spec_quad_count(sec.quad_range.end@, z, s) > spec_quad_count(
            sec.quad_range.start@,
            z,
            s,
        ) {
            Some(
                (
                    spec_quad_count(sec.quad_range.start@, z, s) as int,
                    spec_quad_count(sec.quad_range.end@, z, s) as int,
                ),
            )
        } else {
            None
        }
    };
    match range {
        None => None,
        Some((a, b)) => {
            let scissor_ok = match sec.scissor {
                Some(sc) => sc.width > 0 && sc.height > 0,
                None => vw > 0 && vh > 0,
            };
            if scissor_ok && b * (INDICES_PER_QUAD as int) <= usize::MAX {
                Some(
                    DrawCall {
                        zindex: z,
                        sub_idx: s,
                        first_index: (a * (INDICES_PER_QUAD as int)) as usize,
                        end_index: (b * (INDICES_PER_QUAD as int)) as usize,
                        scissor: sec.scissor,
                        source: if sec.skippable {
                            DrawSource::PreviousFrame
                        } else {
                            DrawSource::CurrentFrame
                        },
                    },
                )
            } else {
                None
            }
        },
    }
}

/// The draw calls the first `upto` sections contribute for one slot, in
/// section order.
pub open spec fn spec_slot_calls_rec(
    sections: Seq<RenderSection>,
    store: Option<FrameBuffers>,
    upto: int,
    z: i8,
    s: usize,
    vw: u32,
    vh: u32,
) -> Seq<DrawCall>
    decreases upto,
{
    if upto <= 0 {
        Seq::empty()
    } else {
        spec_slot_calls_rec(sections, store, upto - 1, z, s, vw, vh) + match spec_section_call(
            sections,
            store,
            upto - 1,
            z,
            s,
            vw,
            vh,
        ) {
            Some(c) => seq![c],
            None => Seq::empty(),
        }
    }
}

/// Whether any section wrote quads into the slot this frame.
pub open spec fn spec_slot_has_range(sections: Seq<RenderSection>, upto: int, z: i8, s: usize) -> bool {
    exists|i: int|
        0 <= i < upto && spec_quad_count((#[trigger] sections[i]).quad_range.end@, z, s)
            > spec_quad_count(sections[i].quad_range.start@, z, s)
}

/// All the draw calls for one slot: the per-section calls, or one
/// full-range fallback call when no section drew, no section covers the
/// slot, and the slot still holds quads.
pub open spec fn spec_slot_calls(
    sections: Seq<RenderSection>,
    store: Option<FrameBuffers>,
    z: i8,
    s: usize,
    vw: u32,
    vh: u32,
    fallback_index_count: usize,
) -> Seq<DrawCall> {
    let base = spec_slot_calls_rec(sections, store, sections.len() as int, z, s, vw, vh);
    if base.len() == 0 && !spec_slot_has_range(sections, sections.len() as int, z, s)
        && fallback_index_count > 0 {
        seq![
            DrawCall {
                zindex: z,
                sub_idx: s,
                first_index: 0,
                end_index: fallback_index_count,
                scissor: None,
                source: DrawSource::CurrentFrame,
            },
        ]
    } else {
        base
    }
}

/// Emits the draw calls for one layer slot, exactly as
/// `spec_slot_calls` describes: one call per section that wrote quads
/// there, replaying a skippable section from the previous frame's buffer
/// when it is still retained, and one full-range fallback call when no
/// section covers a slot that still holds quads.
#[verifier::loop_isolation(false)]
fn draw_layer_sections(
    calls: &mut Vec<DrawCall>,
    plan: &RenderPlan,
    zindex: i8,
    sub_idx: usize,
    fallback_index_count: usize,
    previous_frame: &Option<FrameBuffers>,
)
    ensures
        final(calls)@ == old(calls)@ + spec_slot_calls(
            plan.sections@,
            *previous_frame,
            zindex,
            sub_idx,
            plan.viewport_width,
            plan.viewport_height,
            fallback_index_count,
        ),
{
    let ghost sections = plan.sections@;
    let ghost store = *previous_frame;
    let mut drew = false;
    let mut has_range = false;
    let n = plan.sections.len();
    let mut section_idx: usize = 0;
    while section_idx < n
        invariant
            n == sections.len(),
            0 <= section_idx <= n,
            calls@ == old(calls)@ + spec_slot_calls_rec(
                sections,
                store,
                section_idx as int,
                zindex,
                sub_idx,
                plan.viewport_width,
                plan.viewport_height,
            ),
            drew == (spec_slot_calls_rec(
                sections,
                store,
                section_idx as int,
                zindex,
                sub_idx,
                plan.viewport_width,
                plan.viewport_height,
            ).len() > 0),
            has_range == spec_slot_has_range(sections, section_idx as int, zindex, sub_idx),
        decreases n - section_idx,
    {
        let section = &plan.sections[section_idx];
        let current_range = quad_range_for_section(&section.quad_range, zindex, sub_idx);
        if current_range.is_some() {
            has_range = true;
            proof {
                assert(spec_quad_count(sections[section_idx as int].quad_range.end@, zindex, sub_idx)
                    > spec_quad_count(
                    sections[section_idx as int].quad_range.start@,
                    zindex,
                    sub_idx,
                ));
            }
        }
        proof {
            if !has_range {
                assert forall|i: int|
                    0 <= i < section_idx as int + 1 implies !(spec_quad_count(
                    (#[trigger] sections[i]).quad_range.end@,
                    zindex,
                    sub_idx,
                ) > spec_quad_count(sections[i].quad_range.start@, zindex, sub_idx)) by {
                    if i < section_idx as int {
                        assert(!spec_slot_has_range(sections, section_idx as int, zindex, sub_idx));
                    }
                }
            }
        }
        // A skippable section replays the previous frame's recorded
        // range, when both the range and the buffer are still retained.
        let mut use_previous = false;
        let mut range: Option<(usize, usize)> = None;
        if section.skippable {
            match previous_frame {
                Some(prev) => {
                    if section_idx < prev.section_ranges.len() {
                        let stored = quad_range_for_section(
                            &prev.section_ranges[section_idx],
                            zindex,
                            sub_idx,
                        );
                        if stored.is_some() {
                            if prev.buffer(zindex, sub_idx).is_some() {
                                use_previous = true;
                                range = stored;
                            }
                        }
                    }
                },
                None => {},
            }
        } else {
            range = current_range;
        }
        let ghost expected = spec_section_call(
            sections,
            store,
            section_idx as int,
            zindex,
            sub_idx,
            plan.viewport_width,
            plan.viewport_height,
        );
        match range {
            Some((start_quad, end_quad)) => {
                let scissor_ok = match &section.scissor {
                    Some(sc) => sc.width > 0 && sc.height > 0,
                    None => plan.viewport_width > 0 && plan.viewport_height > 0,
                };
                if scissor_ok && end_quad <= usize::MAX / INDICES_PER_QUAD {
                    let call = DrawCall {
                        zindex,
                        sub_idx,
                        first_index: start_quad * INDICES_PER_QUAD,
                        end_index: end_quad * INDICES_PER_QUAD,
                        scissor: section.scissor,
                        source: if use_previous {
                            DrawSource::PreviousFrame
                        } else {
                            DrawSource::CurrentFrame
                        },
                    };
                    proof {
                        assert(expected == Some(call));
                    }
                    calls.push(call);
                    drew = true;
                    proof {
                        assert(calls@ =~= old(calls)@ + spec_slot_calls_rec(
                            sections,
                            store,
                            section_idx as int + 1,
                            zindex,
                            sub_idx,
                            plan.viewport_width,
                            plan.viewport_height,
                        ));
                    }
                } else {
                    proof {
                        assert(expected is None);
                        assert(spec_slot_calls_rec(
                            sections,
                            store,
                            section_idx as int + 1,
                            zindex,
                            sub_idx,
                            plan.viewport_width,
                            plan.viewport_height,
                        ) =~= spec_slot_calls_rec(
                            sections,
                            store,
                            section_idx as int,
                            zindex,
                            sub_idx,
                            plan.viewport_width,
                            plan.viewport_height,
                        ));
                    }
                }
            },
            None => {
                proof {
                    assert(expected is None);
                    assert(spec_slot_calls_rec(
                        sections,
                        store,
                        section_idx as int + 1,
                        zindex,
                        sub_idx,
                        plan.viewport_width,
                        plan.viewport_height,
                    ) =~= spec_slot_calls_rec(
                        sections,
                        store,
                        section_idx as int,
                        zindex,
                        sub_idx,
                        plan.viewport_width,
                        plan.viewport_height,
                    ));
                }
            },
        }
        section_idx = section_idx + 1;
    }
    if !drew && !has_range && fallback_index_count > 0 {
        calls.push(
            DrawCall {
                zindex,
                sub_idx,
                first_index: 0,
                end_index: fallback_index_count,
                scissor: None,
                source: DrawSource::CurrentFrame,
            },
        );
        proof {
            assert(calls@ =~= old(calls)@ + spec_slot_calls(
                sections,
                store,
                zindex,
                sub_idx,
                plan.viewport_width,
                plan.viewport_height,
                fallback_index_count,
            ));
        }
    } else {
        proof {
            assert(spec_slot_calls(
                sections,
                store,
                zindex,
                sub_idx,
                plan.viewport_width,
                plan.viewport_height,
                fallback_index_count,
            ) == spec_slot_calls_rec(
                sections,
                store,
                n as int,
                zindex,
                sub_idx,
                plan.viewport_width,
                plan.viewport_height,
            ));
        }
    }
}

/// Whether the draw pass visits slot `s` of layer `i`: it holds quads
/// and its index count stays within the machine limit.
pub open spec fn spec_slot_drawn(layers: Seq<RenderLayer>, i: int, s: int) -> bool {
    &&& layers[i].vb@[s].next_quad > 0
    &&& layers[i].vb@[s].next_quad * (INDICES_PER_QUAD as int) <= usize::MAX
}

/// The draw calls slot `s` of layer `i` contributes: its per-section
/// calls under the current plan, one full-range call when there is no
/// plan, and nothing when the slot is empty or out of range.
pub open spec fn spec_draw_slot(
    layers: Seq<RenderLayer>,
    plan: Option<RenderPlan>,
    store: Option<FrameBuffers>,
    i: int,
    s: int,
) -> Seq<DrawCall> {
    if !spec_slot_drawn(layers, i, s) {
        Seq::empty()
    } else {
        let z = layers[i].zindex;
        let fic = (layers[i].vb@[s].next_quad * (INDICES_PER_QUAD as int)) as usize;
        match plan {
            Some(p) => spec_slot_calls(
                p.sections@,
                store,
                z,
                s as usize,
                p.viewport_width,
                p.viewport_height,
                fic,
            ),
            None => seq![
                DrawCall {
                    zindex: z,
                    sub_idx: s as usize,
                    first_index: 0,
                    end_index: fic,
                    scissor: None,
                    source: DrawSource::CurrentFrame,
                },
            ],
        }
    }
}

/// The calls of the first `s` slots of layer `i`, in slot order.
pub open spec fn spec_draw_slot_prefix(
    layers: Seq<RenderLayer>,
    plan: Option<RenderPlan>,
    store: Option<FrameBuffers>,
    i: int,
    s: int,
) -> Seq<DrawCall>
    decreases s,
{
    if s <= 0 {
        Seq::empty()
    } else {
        spec_draw_slot_prefix(layers, plan, store, i, s - 1) + spec_draw_slot(
            layers,
            plan,
            store,
            i,
            s - 1,
        )
    }
}

/// The whole frame's draw calls, for the first `upto` layers: layers in
/// increasing depth order, slots 0, 1, 2 within a layer, sections in
/// order within a slot.
pub open spec fn spec_draw_calls(
    layers: Seq<RenderLayer>,
    plan: Option<RenderPlan>,
    store: Option<FrameBuffers>,
    upto: int,
) -> Seq<DrawCall>
    decreases upto,
{
    if upto <= 0 {
        Seq::empty()
    } else {
        spec_draw_calls(layers, plan, store, upto - 1) + spec_draw_slot_prefix(
            layers,
            plan,
            store,
            upto - 1,
            3,
        )
    }
}

/// What the new continuity store answers for `(z, s)` after the draw
/// pass: the buffer written this frame, for exactly the slots the pass
/// visited.
pub open spec fn spec_new_store_lookup(state: RenderState, z: i8, s: usize) -> Option<Seq<Quad>> {
    let fi = crate::arena::find_layer(state.layers@, z as int);
    if fi >= 0 && (s as int) < 3 && spec_slot_drawn(state.layers@, fi, s as int) {
        Some(state.slot_data(z as int, s as int))
    } else {
        None
    }
}

/// Looking a slot up in a store extended by one buffer: the earlier
/// entries win, then the new one.
proof fn lemma_stored_push(l: Seq<StoredBuffer>, e: StoredBuffer, z: i8, s: usize)
    ensures
        spec_stored_quads(l.push(e), z, s) == if spec_stored_quads(l, z, s) is Some {
            spec_stored_quads(l, z, s)
        } else if e.zindex == z && e.sub_idx == s {
            Some(e.quads@)
        } else {
            None
        },
    decreases l,
{
    if l.len() == 0 {
        assert(l.push(e) =~= seq![e]);
        assert(l.push(e)[0] == e);
        assert(l.push(e).skip(1) =~= Seq::<StoredBuffer>::empty());
        assert(spec_stored_quads(Seq::<StoredBuffer>::empty(), z, s) == None::<Seq<Quad>>);
    } else {
        assert(l.push(e)[0] == l[0]);
        assert(l.push(e).skip(1) =~= l.skip(1).push(e));
        lemma_stored_push(l.skip(1), e, z, s);
    }
}

/// An index count fits the machine limit exactly when the quad count
/// stays under the divided bound.
proof fn lemma_index_fits(n: usize)
    ensures
        (n as int) <= (usize::MAX as int) / (INDICES_PER_QUAD as int) <==> n * (INDICES_PER_QUAD as int) <= usize::MAX,
{
    assert(n <= usize::MAX / 6 <==> n * 6 <= usize::MAX) by (nonlinear_arith);
}

impl TermWindow {
    /// Turns the current render plan into the frame's ordered draw calls
    /// — exactly `spec_draw_calls`: layers in increasing depth order,
    /// slots 0, 1, 2 within a layer, sections in order within a slot,
    /// replaying skippable sections from retained buffers — moves this
    /// frame's written buffers into the continuity store together with
    /// the plan's section ranges (replacing, not merging, the previous
    /// store), and rotates every slot's buffers.
    #[verifier::loop_isolation(false)]
    #[verifier::rlimit(100)]
    pub fn call_draw(&mut self) -> (calls: Vec<DrawCall>)
        requires
            old(self).wf(),
        ensures
            final(self).wf(),
            final(self).pixel_width == old(self).pixel_width,
            final(self).pixel_height == old(self).pixel_height,
            final(self).filled_box == old(self).filled_box,
            final(self).render_plan == old(self).render_plan,
            final(self).chrono == old(self).chrono,
            final(self).prev_pane_frames == old(self).prev_pane_frames,
            calls@ == spec_draw_calls(
                old(self).render_state.layers@,
                old(self).render_plan,
                old(self).render_state.prev_frame_buffers,
                old(self).render_state.layers@.len() as int,
            ),
            final(self).render_state.prev_frame_buffers is Some,
            forall|z: i8, s: usize|
                #[trigger] spec_stored_quads(
                    final(self).render_state.prev_frame_buffers->Some_0.buffers@,
                    z,
                    s,
                ) == spec_new_store_lookup(old(self).render_state, z, s),
            ({
                let ranges = final(self).render_state.prev_frame_buffers->Some_0.section_ranges@;
                match old(self).render_plan {
                    Some(plan) => {
                        if forall|k: int|
                            0 <= k < plan.sections@.len() ==> crate::continuity::snaps_wf(
                                (#[trigger] plan.sections@[k]).quad_range.end@,
                            ) {
                            &&& ranges.len() == plan.sections@.len()
                            &&& forall|k: int|
                                0 <= k < ranges.len() ==> (#[trigger] ranges[k]).start@
                                    == plan.sections@[k].quad_range.start@ && ranges[k].end@
                                    == plan.sections@[k].quad_range.end@
                        } else {
                            ranges.len() == 0
                        }
                    },
                    None => ranges.len() == 0,
                }
            }),
            final(self).render_state.layers@.len() == old(self).render_state.layers@.len(),
            forall|i: int, s: int|
                0 <= i < old(self).render_state.layers@.len() && 0 <= s < 3 ==> {
                    let o = (#[trigger] old(self).render_state.layers@[i].vb@[s]);
                    let f = final(self).render_state.layers@[i].vb@[s];
                    &&& final(self).render_state.layers@[i].zindex == old(
                        self,
                    ).render_state.layers@[i].zindex
                    &&& f.index == if o.index + 1 >= 3 {
                        0int
                    } else {
                        o.index + 1
                    }
                    &&& f.next_quad == o.next_quad
                    &&& f.capacity == o.capacity
                },
    {
        broadcast use crate::arena::lemma_find_layer;

        let ghost state0: RenderState = self.render_state;
        let ghost plan0 = old(self).render_plan;
        let ghost store0 = old(self).render_state.prev_frame_buffers;
        let mut next_buffers: Vec<StoredBuffer> = Vec::new();
        let mut calls: Vec<DrawCall> = Vec::new();
        // Swap the previous frame's store out so the layers can be walked
        // mutably while the draw decision consults it.
        let mut previous: Option<FrameBuffers> = None;
        core::mem::swap(&mut previous, &mut self.render_state.prev_frame_buffers);
        let layer_count = self.render_state.layers.len();
        let mut i: usize = 0;
        proof {
            assert(spec_stored_quads(next_buffers@, 0i8, 0usize) is None);
        }
        while i < layer_count
            invariant
                layer_count == state0.layers@.len(),
                0 <= i <= layer_count,
                self.render_state.wf(),
                self.render_state.layers@.len() == layer_count,
                forall|k: int|
                    0 <= k < layer_count ==> (#[trigger] self.render_state.layers@[k]).zindex
                        == state0.layers@[k].zindex,
                forall|k: int, t: int|
                    i <= k < layer_count && 0 <= t < 3 ==> (
                    #[trigger] self.render_state.layers@[k].vb@[t]) == state0.layers@[k].vb@[t],
                forall|k: int, t: int|
                    0 <= k < i && 0 <= t < 3 ==> {
                        let o = (#[trigger] state0.layers@[k].vb@[t]);
                        let f = self.render_state.layers@[k].vb@[t];
                        &&& f.index == if o.index + 1 >= 3 {
                            0int
                        } else {
                            o.index + 1
                        }
                        &&& f.next_quad == o.next_quad
                        &&& f.capacity == o.capacity
                    },
                self.pixel_width == old(self).pixel_width,
                self.pixel_height == old(self).pixel_height,
                self.filled_box == old(self).filled_box,
                self.render_plan == old(self).render_plan,
                self.chrono == old(self).chrono,
                self.prev_pane_frames == old(self).prev_pane_frames,
                self.render_state.prev_frame_buffers is None,
                previous == store0,
                calls@ == spec_draw_calls(state0.layers@, plan0, store0, i as int),
                forall|z: i8, sx: usize|
                    #[trigger] spec_stored_quads(next_buffers@, z, sx) == ({
                        let fi = crate::arena::find_layer(state0.layers@, z as int);
                        if fi >= 0 && (sx as int) < 3 && spec_slot_drawn(
                            state0.layers@,
                            fi,
                            sx as int,
                        ) && fi < i {
                            Some(state0.slot_data(z as int, sx as int))
                        } else {
                            None
                        }
                    }),
            decreases layer_count - i,
        {
            let zindex = self.render_state.layers[i].zindex;
            proof {
                assert forall|j: int| 0 <= j < i implies (#[trigger] state0.layers@[j]).zindex
                    != zindex by {
                    assert(state0.layers@[j].zindex < state0.layers@[i as int].zindex);
                }
                crate::arena::lemma_find_layer_at_pub(state0.layers@, zindex as int, i as int);
            }
            let mut sub: usize = 0;
            while sub < 3
                invariant
                    0 <= sub <= 3,
                    i < layer_count,
                    layer_count == state0.layers@.len(),
                    self.render_state.wf(),
                    self.render_state.layers@.len() == layer_count,
                    forall|k: int|
                        0 <= k < layer_count ==> (#[trigger] self.render_state.layers@[k]).zindex
                            == state0.layers@[k].zindex,
                    zindex == state0.layers@[i as int].zindex,
                    crate::arena::find_layer(state0.layers@, zindex as int) == i as int,
                    forall|k: int, t: int|
                        ((i as int) < k < layer_count || (k == i as int && (sub as int) <= t)) && 0
                            <= t < 3 ==> (#[trigger] self.render_state.layers@[k].vb@[t])
                            == state0.layers@[k].vb@[t],
                    forall|k: int, t: int|
                        (0 <= k < i || (k == i as int && 0 <= t < sub)) && 0 <= t < 3 ==> {
                            let o = (#[trigger] state0.layers@[k].vb@[t]);
                            let f = self.render_state.layers@[k].vb@[t];
                            &&& f.index == if o.index + 1 >= 3 {
                                0int
                            } else {
                                o.index + 1
                            }
                            &&& f.next_quad == o.next_quad
                            &&& f.capacity == o.capacity
                        },
                    self.pixel_width == old(self).pixel_width,
                    self.pixel_height == old(self).pixel_height,
                    self.filled_box == old(self).filled_box,
                    self.render_plan == old(self).render_plan,
                    self.chrono == old(self).chrono,
                    self.prev_pane_frames == old(self).prev_pane_frames,
                    self.render_state.prev_frame_buffers is None,
                    previous == store0,
                    calls@ == spec_draw_calls(state0.layers@, plan0, store0, i as int)
                        + spec_draw_slot_prefix(state0.layers@, plan0, store0, i as int, sub as int),
                    forall|z: i8, sx: usize|
                        #[trigger] spec_stored_quads(next_buffers@, z, sx) == ({
                            let fi = crate::arena::find_layer(state0.layers@, z as int);
                            if fi >= 0 && (sx as int) < 3 && spec_slot_drawn(
                                state0.layers@,
                                fi,
                                sx as int,
                            ) && (fi < i as int || (fi == i as int && (sx as int) < sub as int)) {
                                Some(state0.slot_data(z as int, sx as int))
                            } else {
                                None
                            }
                        }),
                decreases 3 - sub,
            {
                let next_quad = {
                    let layer = &self.render_state.layers[i];
                    layer.vb[sub].next_quad
                };
                proof {
                    lemma_index_fits(next_quad);
                    assert(self.render_state.layers@[i as int].vb@[sub as int]
                        == state0.layers@[i as int].vb@[sub as int]);
                }
                let drawn = next_quad > 0 && next_quad <= usize::MAX / INDICES_PER_QUAD;
                proof {
                    assert(drawn == spec_slot_drawn(state0.layers@, i as int, sub as int));
                }
                if drawn {
                    let index_count = next_quad * INDICES_PER_QUAD;
                    match &self.render_plan {
                        Some(plan) => {
                            draw_layer_sections(
                                &mut calls,
                                plan,
                                zindex,
                                sub,
                                index_count,
                                &previous,
                            );
                        },
                        None => {
                            calls.push(
                                DrawCall {
                                    zindex,
                                    sub_idx: sub,
                                    first_index: 0,
                                    end_index: index_count,
                                    scissor: None,
                                    source: DrawSource::CurrentFrame,
                                },
                            );
                        },
                    }
                    proof {
                        assert(calls@ =~= spec_draw_calls(state0.layers@, plan0, store0, i as int)
                            + spec_draw_slot_prefix(
                            state0.layers@,
                            plan0,
                            store0,
                            i as int,
                            sub as int + 1,
                        ));
                    }
                    // Retain the written buffer for the next frame and
                    // leave a fresh one in its place.
                    let ghost buffers_before = next_buffers@;
                    let layer = &mut self.render_state.layers[i];
                    let tvb = &mut layer.vb[sub];
                    let written = tvb.take_written_buffer();
                    proof {
                        assert(written@ == state0.slot_data(zindex as int, sub as int));
                    }
                    let entry = StoredBuffer { zindex, sub_idx: sub, quads: written };
                    next_buffers.push(entry);
                    proof {
                        assert forall|z: i8, sx: usize|
                            #[trigger] spec_stored_quads(next_buffers@, z, sx) == ({
                                let fi = crate::arena::find_layer(state0.layers@, z as int);
                                if fi >= 0 && (sx as int) < 3 && spec_slot_drawn(
                                    state0.layers@,
                                    fi,
                                    sx as int,
                                ) && (fi < i as int || (fi == i as int && (sx as int) < sub as int
                                    + 1)) {
                                    Some(state0.slot_data(z as int, sx as int))
                                } else {
                                    None
                                }
                            }) by {
                            lemma_stored_push(buffers_before, entry, z, sx);
                            crate::arena::lemma_find_layer(state0.layers@, z as int);
                        }
                    }
                } else {
                    proof {
                        assert(spec_draw_slot(state0.layers@, plan0, store0, i as int, sub as int)
                            =~= Seq::<DrawCall>::empty());
                        assert(calls@ =~= spec_draw_calls(state0.layers@, plan0, store0, i as int)
                            + spec_draw_slot_prefix(
                            state0.layers@,
                            plan0,
                            store0,
                            i as int,
                            sub as int + 1,
                        ));
                        assert forall|z: i8, sx: usize|
                            #[trigger] spec_stored_quads(next_buffers@, z, sx) == ({
                                let fi = crate::arena::find_layer(state0.layers@, z as int);
                                if fi >= 0 && (sx as int) < 3 && spec_slot_drawn(
                                    state0.layers@,
                                    fi,
                                    sx as int,
                                ) && (fi < i as int || (fi == i as int && (sx as int) < sub as int
                                    + 1)) {
                                    Some(state0.slot_data(z as int, sx as int))
                                } else {
                                    None
                                }
                            }) by {
                            crate::arena::lemma_find_layer(state0.layers@, z as int);
                        }
                    }
                }
                let layer = &mut self.render_state.layers[i];
                let tvb = &mut layer.vb[sub];
                tvb.next_index();
                sub = sub + 1;
            }
            i = i + 1;
        }
        // Replace, not merge: only this frame's buffers and ranges
        // survive into the next frame.
        let mut section_ranges: Vec<QuadRange> = Vec::new();
        let mut ranges_ok = true;
        match &self.render_plan {
            Some(plan) => {
                let n = plan.sections.len();
                let mut sct: usize = 0;
                while sct < n
                    invariant
                        n == plan.sections@.len(),
                        0 <= sct <= n,
                        section_ranges@.len() == sct,
                        forall|j: int|
                            0 <= j < sct ==> (#[trigger] section_ranges@[j]).start@
                                == plan.sections@[j].quad_range.start@ && section_ranges@[j].end@
                                == plan.sections@[j].quad_range.end@,
                        ranges_ok == (forall|j: int|
                            0 <= j < sct ==> crate::continuity::snaps_wf(
                                (#[trigger] plan.sections@[j]).quad_range.end@,
                            )),
                    decreases n - sct,
                {
                    let range = crate::continuity::clone_range(&plan.sections[sct].quad_range);
                    if !snaps_wf_check(&range.end) {
                        ranges_ok = false;
                    }
                    section_ranges.push(range);
                    sct = sct + 1;
                }
            },
            None => {},
        }
        if !ranges_ok {
            // A malformed range would poison the next frame's skip
            // decision; retain nothing rather than replay it.
            section_ranges = Vec::new();
            proof {
                assert(section_ranges@ =~= Seq::<QuadRange>::empty());
            }
        }
        let next = FrameBuffers { buffers: next_buffers, section_ranges };
        self.render_state.prev_frame_buffers = Some(next);
        proof {
            let stored = self.render_state.prev_frame_buffers->Some_0.buffers@;
            assert forall|z: i8, sx: usize|
                #[trigger] spec_stored_quads(stored, z, sx) == spec_new_store_lookup(
                old(self).render_state,
                z,
                sx,
            ) by {
                crate::arena::lemma_find_layer(state0.layers@, z as int);
            }
        }
        calls
    }
}

/// Checks that a snapshot list is shaped like the arena's own snapshots.
#[verifier::loop_isolation(false)]
fn snaps_wf_check(snaps: &Vec<crate::plan::LayerQuadSnapshot>) -> (r: bool)
    ensures
        r == crate::continuity::snaps_wf(snaps@),
{
    let n = snaps.len();
    let mut i: usize = 0;
    while i < n
        invariant
            n == snaps@.len(),
            0 <= i <= n,
            forall|a: int| 0 <= a < i ==> (#[trigger] snaps@[a]).sub_idx < 3,
            forall|a: int, b: int|
                0 <= a < b < n && a < i ==> !((#[trigger] snaps@[a]).zindex == (
                #[trigger] snaps@[b]).zindex && snaps@[a].sub_idx == snaps@[b].sub_idx),
        decreases n - i,
    {
        let e = snaps[i];
        if e.sub_idx >= 3 {
            return false;
        }
        let mut j: usize = i + 1;
        while j < n
            invariant
                i < j <= n,
                n == snaps@.len(),
                e == snaps@[i as int],
                forall|b: int|
                    i < b < j ==> !((#[trigger] snaps@[b]).zindex == e.zindex && snaps@[b].sub_idx
                        == e.sub_idx),
            decreases n - j,
        {
            let f = snaps[j];
            if f.zindex == e.zindex && f.sub_idx == e.sub_idx {
                return false;
            }
            j = j + 1;
        }
        i = i + 1;
    }
    true
}

} // verus!
