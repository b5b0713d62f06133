//! Frame-to-frame continuity: deciding, per pane, whether the previous
//! frame's description and GPU data can be reused, and reserving quad
//! ranges without re-executing when they can.

use vstd::prelude::*;
use crate::arena::{spec_stored_quads, FrameBuffers, RenderState};
use crate::plan::{spec_quad_count, LayerQuadSnapshot, QuadRange};

verus! {

/// How many quads a range claims for `(z, s)`: the end count minus the
/// start count, never negative, with a missing entry counting zero.
pub open spec fn spec_range_delta(
    start: Seq<LayerQuadSnapshot>,
    end: Seq<LayerQuadSnapshot>,
    z: i8,
    s: usize,
) -> int {
    let a = spec_quad_count(start, z, s) as int;
    let b = spec_quad_count(end, z, s) as int;
    if b > a {
        b - a
    } else {
        0
    }
}

/// Every snapshot entry addresses a real sub-buffer and no slot appears
/// twice, as the snapshots the arena itself takes guarantee.
pub open spec fn snaps_wf(snaps: Seq<LayerQuadSnapshot>) -> bool {
    &&& forall|i: int| 0 <= i < snaps.len() ==> (#[trigger] snaps[i]).sub_idx < 3
    &&& forall|i: int, j: int|
        0 <= i < j < snaps.len() ==> !((#[trigger] snaps[i]).zindex == (#[trigger] snaps[j]).zindex
            && snaps[i].sub_idx == snaps[j].sub_idx)
}

/// With unique slots, each entry's recorded count is what the lookup
/// finds.
proof fn lemma_unique_snap_lookup(snaps: Seq<LayerQuadSnapshot>, j: int)
    requires
        snaps_wf(snaps),
        0 <= j < snaps.len(),
    ensures
        spec_quad_count(snaps, snaps[j].zindex, snaps[j].sub_idx) == snaps[j].quad_count,
    decreases snaps,
{
    if j == 0 {
    } else {
        assert(!(snaps[0].zindex == snaps[j].zindex && snaps[0].sub_idx == snaps[j].sub_idx));
        assert forall|a: int, b: int|
            0 <= a < b < snaps.skip(1).len() implies !((#[trigger] snaps.skip(1)[a]).zindex == (
        #[trigger] snaps.skip(1)[b]).zindex && snaps.skip(1)[a].sub_idx == snaps.skip(
            1,
        )[b].sub_idx) by {
            assert(snaps.skip(1)[a] == snaps[a + 1]);
            assert(snaps.skip(1)[b] == snaps[b + 1]);
        }
        assert forall|a: int| 0 <= a < snaps.skip(1).len() implies (#[trigger] snaps.skip(
            1,
        )[a]).sub_idx < 3 by {
            assert(snaps.skip(1)[a] == snaps[a + 1]);
        }
        lemma_unique_snap_lookup(snaps.skip(1), j - 1);
        assert(snaps.skip(1)[j - 1] == snaps[j]);
    }
}

/// Whether the retained buffers still hold valid data for every slot a
/// recorded range needs: for each slot the range wrote into, a buffer
/// must be retained and must hold at least the range's end count.
pub open spec fn spec_has_buffers_for_range(frame: FrameBuffers, range: QuadRange) -> bool {
    forall|j: int|
        0 <= j < range.end@.len() ==> {
            let e = #[trigger] range.end@[j];
            e.quad_count <= spec_quad_count(range.start@, e.zindex, e.sub_idx) || {
                &&& spec_stored_quads(frame.buffers@, e.zindex, e.sub_idx) is Some
                &&& spec_stored_quads(frame.buffers@, e.zindex, e.sub_idx)->Some_0.len()
                    >= e.quad_count
            }
        }
}

/// Checks that the continuity store still holds every buffer a recorded
/// range relies on, with enough valid quads for the range's end counts.
#[verifier::loop_isolation(false)]
pub fn frame_has_buffers_for_range(frame: &FrameBuffers, quad_range: &QuadRange) -> (r: bool)
    ensures
        r == spec_has_buffers_for_range(*frame, *quad_range),
{
    let n = quad_range.end.len();
    let mut j: usize = 0;
    while j < n
        invariant
            n == quad_range.end@.len(),
            0 <= j <= n,
            forall|k: int|
                0 <= k < j ==> {
                    let e = #[trigger] quad_range.end@[k];
                    e.quad_count <= spec_quad_count(quad_range.start@, e.zindex, e.sub_idx) || {
                        &&& spec_stored_quads(frame.buffers@, e.zindex, e.sub_idx) is Some
                        &&& spec_stored_quads(frame.buffers@, e.zindex, e.sub_idx)->Some_0.len()
                            >= e.quad_count
                    }
                },
        decreases n - j,
    {
        let e = quad_range.end[j];
        let start_quad = crate::plan::quad_count_for_snapshot(
            quad_range.start.as_slice(),
            e.zindex,
            e.sub_idx,
        );
        if e.quad_count > start_quad {
            match frame.buffer(e.zindex, e.sub_idx) {
                Some(buf) => {
                    if buf.len() < e.quad_count {
                        return false;
                    }
                },
                None => {
                    return false;
                },
            }
        }
        j = j + 1;
    }
    true
}

/// A slot outside the depth or sub-buffer range never holds quads.
pub proof fn lemma_count_out_of_range(state: RenderState, z: int, s: int)
    requires
        !(i8::MIN <= z <= i8::MAX && 0 <= s < 3),
    ensures
        state.count(z, s) == 0,
{
    if 0 <= s < 3 {
        crate::arena::lemma_find_layer(state.layers@, z);
    }
}

/// Copies a recorded range so it can be applied to the arena while the
/// continuity store stays borrowed elsewhere.
#[verifier::loop_isolation(false)]
pub fn clone_range(r: &QuadRange) -> (c: QuadRange)
    ensures
        c.start@ == r.start@,
        c.end@ == r.end@,
{
    QuadRange { start: copy_snaps(&r.start), end: copy_snaps(&r.end) }
}

#[verifier::loop_isolation(false)]
fn copy_snaps(v: &Vec<LayerQuadSnapshot>) -> (c: Vec<LayerQuadSnapshot>)
    ensures
        c@ == v@,
{
    let n = v.len();
    let mut c: Vec<LayerQuadSnapshot> = Vec::new();
    let mut i: usize = 0;
    while i < n
        invariant
            0 <= i <= n,
            n == v@.len(),
            c@ == v@.take(i as int),
        decreases n - i,
    {
        c.push(v[i]);
        proof {
            assert(c@ =~= v@.take(i as int + 1));
        }
        i = i + 1;
    }
    proof {
        assert(v@.take(n as int) =~= v@);
    }
    c
}

/// Reserves, for every slot a recorded range wrote into, the same number
/// of quads the range covered, creating layers as needed, so that a
/// skipped section's range stays congruent with the previous frame's.
#[verifier::loop_isolation(false)]
pub fn advance_quad_counts_for_range(render_state: &mut RenderState, quad_range: &QuadRange)
    requires
        old(render_state).wf(),
        snaps_wf(quad_range.end@),
        forall|z: i8, s: usize|
            s < 3 ==> #[trigger] old(render_state).count(z as int, s as int) + spec_range_delta(
                quad_range.start@,
                quad_range.end@,
                z,
                s,
            ) <= usize::MAX,
    ensures
        final(render_state).wf(),
        final(render_state).prev_frame_buffers == old(render_state).prev_frame_buffers,
        forall|z: i8, s: usize|
            s < 3 ==> #[trigger] final(render_state).count(z as int, s as int) == old(
                render_state,
            ).count(z as int, s as int) + spec_range_delta(
                quad_range.start@,
                quad_range.end@,
                z,
                s,
            ),
        forall|z: int, s: int|
            old(render_state).has_layer(z) ==> #[trigger] final(render_state).cap(z, s) == old(
                render_state,
            ).cap(z, s),
        forall|z: int, s: int|
            #[trigger] final(render_state).count(z, s) == old(render_state).count(z, s) + if i8::MIN
                <= z <= i8::MAX && 0 <= s < 3 {
                spec_range_delta(quad_range.start@, quad_range.end@, z as i8, s as usize)
            } else {
                0int
            },
        forall|z: int, s: int|
            old(render_state).has_layer(z) ==> #[trigger] final(render_state).slot_data(z, s)
                == old(render_state).slot_data(z, s),
        forall|z: int, s: int|
            0 <= s < 3 && !old(render_state).has_layer(z) && final(render_state).has_layer(z)
                ==> #[trigger] final(render_state).slot_data(z, s)
                == crate::arena::spec_new_layer_data(s),
    {
    let n = quad_range.end.len();
    let mut j: usize = 0;
    while j < n
        invariant
            n == quad_range.end@.len(),
            0 <= j <= n,
            render_state.wf(),
            render_state.prev_frame_buffers == old(render_state).prev_frame_buffers,
            forall|z: i8, s: usize|
                s < 3 ==> #[trigger] render_state.count(z as int, s as int) == old(
                    render_state,
                ).count(z as int, s as int) + prefix_delta(
                    quad_range.start@,
                    quad_range.end@,
                    j as int,
                    z,
                    s,
                ),
            forall|z: int, s: int|
                old(render_state).has_layer(z) ==> #[trigger] render_state.cap(z, s) == old(
                    render_state,
                ).cap(z, s),
            forall|z: int|
                old(render_state).has_layer(z) ==> #[trigger] render_state.has_layer(z),
            forall|z: int, s: int|
                old(render_state).has_layer(z) ==> #[trigger] render_state.slot_data(z, s)
                    == old(render_state).slot_data(z, s),
            forall|z: int, s: int|
                0 <= s < 3 && !old(render_state).has_layer(z) && render_state.has_layer(z)
                    ==> #[trigger] render_state.slot_data(z, s)
                    == crate::arena::spec_new_layer_data(s),
        decreases n - j,
    {
        let e = quad_range.end[j];
        let start_quad = crate::plan::quad_count_for_snapshot(
            quad_range.start.as_slice(),
            e.zindex,
            e.sub_idx,
        );
        proof {
            lemma_unique_snap_lookup(quad_range.end@, j as int);
            lemma_prefix_delta_step(quad_range.start@, quad_range.end@, j as int);
        }
        if e.quad_count > start_quad {
            let delta = e.quad_count - start_quad;
            let ghost rs_mid: RenderState = *render_state;
            let idx = render_state.layer_for_zindex(e.zindex);
            proof {
                assert(render_state.count(e.zindex as int, e.sub_idx as int)
                    == rs_mid.count(e.zindex as int, e.sub_idx as int));
                assert(render_state.layers@[idx as int].vb@[e.sub_idx as int].next_quad
                    == render_state.count(e.zindex as int, e.sub_idx as int));
                assert(prefix_delta(quad_range.start@, quad_range.end@, j as int, e.zindex, e.sub_idx)
                    == 0);
                assert(spec_range_delta(quad_range.start@, quad_range.end@, e.zindex, e.sub_idx)
                    == delta);
            }
            let ghost rs_pre: RenderState = *render_state;
            render_state.advance_slot(idx, e.sub_idx, delta);
            proof {
                assert forall|z: i8, s: usize|
                    s < 3 implies #[trigger] render_state.count(z as int, s as int) == old(
                    render_state,
                ).count(z as int, s as int) + prefix_delta(
                    quad_range.start@,
                    quad_range.end@,
                    j as int + 1,
                    z,
                    s,
                ) by {
                    assert(rs_pre.layers@[idx as int].zindex == e.zindex);
                }
            }
        } else {
            proof {
                assert(spec_range_delta(quad_range.start@, quad_range.end@, e.zindex, e.sub_idx)
                    == 0);
            }
        }
        j = j + 1;
    }
    proof {
        lemma_prefix_delta_full(quad_range.start@, quad_range.end@);
        assert forall|z: int, s: int|
            #[trigger] render_state.count(z, s) == old(render_state).count(z, s) + (if i8::MIN <= z
                <= i8::MAX && 0 <= s < 3 {
                spec_range_delta(quad_range.start@, quad_range.end@, z as i8, s as usize)
            } else {
                0int
            }) by {
            if i8::MIN <= z <= i8::MAX && 0 <= s < 3 {
                let zb = z as i8;
                let su = s as usize;
                assert(render_state.count(zb as int, su as int) == old(render_state).count(
                    zb as int,
                    su as int,
                ) + spec_range_delta(quad_range.start@, quad_range.end@, zb, su));
                assert(zb as int == z && su as int == s);
            } else {
                lemma_count_out_of_range(*render_state, z, s);
                lemma_count_out_of_range(*old(render_state), z, s);
            }
        }
    }
}

/// The range delta contributed by the first `j` end entries alone.
pub open spec fn prefix_delta(
    start: Seq<LayerQuadSnapshot>,
    end: Seq<LayerQuadSnapshot>,
    j: int,
    z: i8,
    s: usize,
) -> int {
    if exists|k: int|
        0 <= k < j && (#[trigger] end[k]).zindex == z && end[k].sub_idx == s {
        spec_range_delta(start, end, z, s)
    } else {
        0
    }
}

/// Entry `j` either matches a slot no earlier entry touched, so its
/// processing moves that slot's prefix delta from zero to the full
/// delta, or the prefix delta is unchanged.
proof fn lemma_prefix_delta_step(start: Seq<LayerQuadSnapshot>, end: Seq<LayerQuadSnapshot>, j: int)
    requires
        snaps_wf(end),
        0 <= j < end.len(),
    ensures
        forall|z: i8, s: usize|
            #[trigger] prefix_delta(start, end, j + 1, z, s) == if end[j].zindex == z && end[j].sub_idx
                == s {
                spec_range_delta(start, end, z, s)
            } else {
                prefix_delta(start, end, j, z, s)
            },
        prefix_delta(start, end, j, end[j].zindex, end[j].sub_idx) == 0,
{
    assert forall|z: i8, s: usize|
        #[trigger] prefix_delta(start, end, j + 1, z, s) == if end[j].zindex == z && end[j].sub_idx
            == s {
            spec_range_delta(start, end, z, s)
        } else {
            prefix_delta(start, end, j, z, s)
        } by {
        if end[j].zindex == z && end[j].sub_idx == s {
            assert(0 <= j < j + 1 && end[j].zindex == z && end[j].sub_idx == s);
        } else {
            if exists|k: int| 0 <= k < j && (#[trigger] end[k]).zindex == z && end[k].sub_idx == s {
                let k = choose|k: int|
                    0 <= k < j && (#[trigger] end[k]).zindex == z && end[k].sub_idx == s;
                assert(0 <= k < j + 1 && end[k].zindex == z && end[k].sub_idx == s);
            } else {
                if exists|k: int|
                    0 <= k < j + 1 && (#[trigger] end[k]).zindex == z && end[k].sub_idx == s {
                    let k = choose|k: int|
                        0 <= k < j + 1 && (#[trigger] end[k]).zindex == z && end[k].sub_idx == s;
                    assert(k == j);
                }
            }
        }
    }
}

/// Processing every end entry realizes the full range delta.
proof fn lemma_prefix_delta_full(start: Seq<LayerQuadSnapshot>, end: Seq<LayerQuadSnapshot>)
    ensures
        forall|z: i8, s: usize|
            #[trigger] prefix_delta(start, end, end.len() as int, z, s) == spec_range_delta(
                start,
                end,
                z,
                s,
            ),
{
    assert forall|z: i8, s: usize|
        #[trigger] prefix_delta(start, end, end.len() as int, z, s) == spec_range_delta(
        start,
        end,
        z,
        s,
    ) by {
        if !exists|k: int|
            0 <= k < end.len() && (#[trigger] end[k]).zindex == z && end[k].sub_idx == s {
            lemma_absent_slot_zero(end, z, s);
        }
    }
}

/// A slot no end entry mentions has a zero end count, so its delta is
/// zero.
proof fn lemma_absent_slot_zero(end: Seq<LayerQuadSnapshot>, z: i8, s: usize)
    requires
        forall|k: int|
            0 <= k < end.len() ==> !((#[trigger] end[k]).zindex == z && end[k].sub_idx == s),
    ensures
        spec_quad_count(end, z, s) == 0,
    decreases end,
{
    if end.len() > 0 {
        assert forall|k: int|
            0 <= k < end.skip(1).len() implies !((#[trigger] end.skip(1)[k]).zindex == z && end.skip(
            1,
        )[k].sub_idx == s) by {
            assert(end.skip(1)[k] == end[k + 1]);
        }
        lemma_absent_slot_zero(end.skip(1), z, s);
    }
}

} // verus!
