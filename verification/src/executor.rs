//! The command executor: walks a command list, resolves each draw or fill
//! to a layer, bump-allocates a quad in that layer's addressed sub-buffer
//! and writes its vertex attributes, while an execution history counts
//! quads, fills, draws and overdrawn positions.

use vstd::prelude::*;
use crate::arena::{Quad, RenderState};
use crate::command::{CmdView, Rect, RenderCommand, TextureCoords};
use crate::plan::ExecutionStats;

verus! {

/// Offsets are half the viewport, which itself fits in 32 bits.
pub const OFFSET_LIMIT: i64 = 0x1_0000_0000;

/// One quad emission: which layer slot it lands in, the attributes
/// written, and whether it came from a fill (as opposed to a textured
/// quad).
pub struct Emission {
    pub zindex: i8,
    pub sub: usize,
    pub quad: Quad,
    pub is_fill: bool,
}

/// The exact pixel position a quad covers, used to detect overdraw.
#[derive(Clone, Copy, Debug, PartialEq, Eq, Structural, Hash)]
pub struct PosKey {
    pub left: i64,
    pub top: i64,
    pub right: i64,
    pub bottom: i64,
}

pub open spec fn pos_key_of(q: Quad) -> PosKey {
    PosKey { left: q.left, top: q.top, right: q.right, bottom: q.bottom }
}

/// The quad a fill writes: the rectangle offset to be centered on the
/// viewport, textured with the filled-box sprite, in solid-color mode.
pub open spec fn spec_fill_quad(
    rect: Rect,
    color: crate::command::LinearRgba,
    hsv: Option<crate::command::HsbTransform>,
    lo: i64,
    to: i64,
    filled_box: TextureCoords,
) -> Quad {
    Quad {
        left: (rect.x - lo) as i64,
        top: (rect.y - to) as i64,
        right: (rect.x + rect.width - lo) as i64,
        bottom: (rect.y + rect.height - to) as i64,
        tex_left: filled_box.left,
        tex_top: filled_box.top,
        tex_right: filled_box.right,
        tex_bottom: filled_box.bottom,
        fg_color: color,
        alt_color: None,
        hsv,
        mode: crate::command::QuadMode::SolidColor,
    }
}

/// The quad a textured draw writes.
pub open spec fn spec_draw_quad(
    position: Rect,
    texture: TextureCoords,
    fg_color: crate::command::LinearRgba,
    alt_color: Option<(crate::command::LinearRgba, u16)>,
    hsv: Option<crate::command::HsbTransform>,
    mode: crate::command::QuadMode,
    lo: i64,
    to: i64,
) -> Quad {
    Quad {
        left: (position.x - lo) as i64,
        top: (position.y - to) as i64,
        right: (position.x + position.width - lo) as i64,
        bottom: (position.y + position.height - to) as i64,
        tex_left: texture.left,
        tex_top: texture.top,
        tex_right: texture.right,
        tex_bottom: texture.bottom,
        fg_color,
        alt_color,
        hsv,
        mode,
    }
}

/// The quads a command tree emits, in traversal order.  Control commands
/// emit nothing; batches emit their children's quads in order.
pub open spec fn emissions_of(v: CmdView, lo: i64, to: i64, fb: TextureCoords) -> Seq<Emission>
    decreases v,
{
    match v {
        CmdView::FillRect { layer, zindex, rect, color, hsv } => seq![
            Emission {
                zindex,
                sub: layer,
                quad: spec_fill_quad(rect, color, hsv, lo, to, fb),
                is_fill: true,
            },
        ],
        CmdView::DrawQuad { layer, zindex, position, texture, fg_color, alt_color, hsv, mode } => {
            seq![
                Emission {
                    zindex,
                    sub: layer,
                    quad: spec_draw_quad(position, texture, fg_color, alt_color, hsv, mode, lo, to),
                    is_fill: false,
                },
            ]
        },
        CmdView::Batch(cmds) => emissions_of_seq(cmds, lo, to, fb),
        _ => Seq::empty(),
    }
}

/// The emissions of every command in `cmds`, concatenated.
pub open spec fn emissions_of_seq(cmds: Seq<CmdView>, lo: i64, to: i64, fb: TextureCoords) -> Seq<
    Emission,
>
    decreases cmds,
{
    if cmds.len() == 0 {
        Seq::empty()
    } else {
        emissions_of(cmds[0], lo, to, fb) + emissions_of_seq(cmds.skip(1), lo, to, fb)
    }
}

/// How many of the emissions land in slot `(z, s)`.
pub open spec fn ems_count(ems: Seq<Emission>, z: int, s: int) -> int
    decreases ems,
{
    if ems.len() == 0 {
        0
    } else {
        ems_count(ems.skip(1), z, s) + if ems[0].zindex == z && ems[0].sub == s {
            1int
        } else {
            0int
        }
    }
}

/// The quads the emissions write into slot `(z, s)`, in order.
pub open spec fn ems_quads(ems: Seq<Emission>, z: int, s: int) -> Seq<Quad>
    decreases ems,
{
    if ems.len() == 0 {
        Seq::empty()
    } else {
        let rest = ems_quads(ems.skip(1), z, s);
        if ems[0].zindex == z && ems[0].sub == s {
            seq![ems[0].quad] + rest
        } else {
            rest
        }
    }
}

/// A slot receives exactly as many quads as emissions land in it.
pub broadcast proof fn lemma_ems_quads_len(ems: Seq<Emission>, z: int, s: int)
    ensures
        (#[trigger] ems_quads(ems, z, s)).len() == ems_count(ems, z, s),
    decreases ems,
{
    if ems.len() > 0 {
        lemma_ems_quads_len(ems.skip(1), z, s);
    }
}

/// Whether any emission lands in layer `z`.
pub open spec fn ems_touches(ems: Seq<Emission>, z: int) -> bool {
    exists|i: int| 0 <= i < ems.len() && (#[trigger] ems[i]).zindex == z
}

/// How many emissions are fills.
pub open spec fn ems_fills(ems: Seq<Emission>) -> int
    decreases ems,
{
    if ems.len() == 0 {
        0
    } else {
        ems_fills(ems.skip(1)) + if ems[0].is_fill {
            1int
        } else {
            0int
        }
    }
}

/// The positions seen after marking every emission, given the positions
/// seen before.
pub open spec fn seen_after(seen: Set<PosKey>, ems: Seq<Emission>) -> Set<PosKey>
    decreases ems,
{
    if ems.len() == 0 {
        seen
    } else {
        seen_after(seen.insert(pos_key_of(ems[0].quad)), ems.skip(1))
    }
}

/// How many emissions hit a position already seen, counting repeats
/// within the sequence itself.
pub open spec fn overdraw_after(seen: Set<PosKey>, ems: Seq<Emission>) -> int
    decreases ems,
{
    if ems.len() == 0 {
        0
    } else {
        (if seen.contains(pos_key_of(ems[0].quad)) {
            1int
        } else {
            0int
        }) + overdraw_after(seen.insert(pos_key_of(ems[0].quad)), ems.skip(1))
    }
}

/// The statistics a fresh history reports after executing `ems`.
pub open spec fn stats_of(ems: Seq<Emission>) -> ExecutionStats {
    ExecutionStats {
        quads_emitted: ems.len() as usize,
        fills_emitted: ems_fills(ems) as usize,
        draws_emitted: (ems.len() - ems_fills(ems)) as usize,
        overdraw_positions: overdraw_after(Set::empty(), ems) as int as usize,
    }
}

/// Emission counts are bounded by the emission list's length.
pub broadcast proof fn lemma_ems_count_bounds(ems: Seq<Emission>, z: int, s: int)
    ensures
        0 <= #[trigger] ems_count(ems, z, s) <= ems.len(),
    decreases ems,
{
    if ems.len() > 0 {
        lemma_ems_count_bounds(ems.skip(1), z, s);
    }
}

/// Fill counts are bounded by the emission list's length.
pub broadcast proof fn lemma_ems_fills_bounds(ems: Seq<Emission>)
    ensures
        0 <= #[trigger] ems_fills(ems) <= ems.len(),
    decreases ems,
{
    if ems.len() > 0 {
        lemma_ems_fills_bounds(ems.skip(1));
    }
}

/// Overdraw is bounded by the emission list's length.
pub broadcast proof fn lemma_overdraw_bounds(seen: Set<PosKey>, ems: Seq<Emission>)
    ensures
        0 <= #[trigger] overdraw_after(seen, ems) <= ems.len(),
    decreases ems,
{
    if ems.len() > 0 {
        lemma_overdraw_bounds(seen.insert(pos_key_of(ems[0].quad)), ems.skip(1));
    }
}

/// Each accumulator distributes over concatenation of emission lists.
pub proof fn lemma_ems_concat(a: Seq<Emission>, b: Seq<Emission>, seen: Set<PosKey>)
    ensures
        forall|z: int, s: int|
            #[trigger] ems_count(a + b, z, s) == ems_count(a, z, s) + ems_count(b, z, s),
        forall|z: int, s: int|
            #[trigger] ems_quads(a + b, z, s) == ems_quads(a, z, s) + ems_quads(b, z, s),
        ems_fills(a + b) == ems_fills(a) + ems_fills(b),
        seen_after(seen, a + b) == seen_after(seen_after(seen, a), b),
        overdraw_after(seen, a + b) == overdraw_after(seen, a) + overdraw_after(
            seen_after(seen, a),
            b,
        ),
        forall|z: int| #[trigger] ems_touches(a + b, z) <==> ems_touches(a, z) || ems_touches(b, z),
    decreases a,
{
    if a.len() == 0 {
        assert(a + b =~= b);
        assert(seen_after(seen, a) == seen);
        assert forall|z: int, s: int|
            #[trigger] ems_count(a + b, z, s) == ems_count(a, z, s) + ems_count(b, z, s) by {
            assert(ems_count(a, z, s) == 0);
        }
        assert forall|z: int, s: int|
            #[trigger] ems_quads(a + b, z, s) == ems_quads(a, z, s) + ems_quads(b, z, s) by {
            assert(ems_quads(a, z, s) == Seq::<Quad>::empty());
            assert(Seq::<Quad>::empty() + ems_quads(b, z, s) =~= ems_quads(b, z, s));
        }
        assert forall|z: int| #[trigger] ems_touches(a + b, z) implies ems_touches(a, z)
            || ems_touches(b, z) by {
            let i = choose|i: int| 0 <= i < (a + b).len() && (#[trigger] (a + b)[i]).zindex == z;
            assert(b[i] == (a + b)[i]);
        }
        assert forall|z: int| ems_touches(a, z) || ems_touches(b, z) implies #[trigger] ems_touches(
            a + b,
            z,
        ) by {
            if ems_touches(b, z) {
                let i = choose|i: int| 0 <= i < b.len() && (#[trigger] b[i]).zindex == z;
                assert((a + b)[i] == b[i]);
            }
        }
    } else {
        lemma_ems_concat(a.skip(1), b, seen.insert(pos_key_of(a[0].quad)));
        assert((a + b)[0] == a[0]);
        assert((a + b).skip(1) =~= a.skip(1) + b);
        assert forall|z: int, s: int|
            #[trigger] ems_count(a + b, z, s) == ems_count(a, z, s) + ems_count(b, z, s) by {
            assert(ems_count(a + b, z, s) == ems_count((a + b).skip(1), z, s) + if (a + b)[0].zindex
                == z && (a + b)[0].sub == s {
                1int
            } else {
                0int
            });
            assert(ems_count(a.skip(1) + b, z, s) == ems_count(a.skip(1), z, s) + ems_count(
                b,
                z,
                s,
            ));
        }
        assert forall|z: int, s: int|
            #[trigger] ems_quads(a + b, z, s) == ems_quads(a, z, s) + ems_quads(b, z, s) by {
            assert(ems_quads(a.skip(1) + b, z, s) == ems_quads(a.skip(1), z, s) + ems_quads(
                b,
                z,
                s,
            ));
            if a[0].zindex == z && a[0].sub == s {
                assert(ems_quads(a + b, z, s) == seq![a[0].quad] + (ems_quads(a.skip(1), z, s)
                    + ems_quads(b, z, s)));
                assert(seq![a[0].quad] + (ems_quads(a.skip(1), z, s) + ems_quads(b, z, s)) =~= (
                seq![a[0].quad] + ems_quads(a.skip(1), z, s)) + ems_quads(b, z, s));
            }
        }
        assert(ems_fills(a + b) == ems_fills((a + b).skip(1)) + if (a + b)[0].is_fill {
            1int
        } else {
            0int
        });
        assert(seen_after(seen, a + b) == seen_after(
            seen.insert(pos_key_of(a[0].quad)),
            (a + b).skip(1),
        ));
        assert(overdraw_after(seen, a + b) == (if seen.contains(pos_key_of(a[0].quad)) {
            1int
        } else {
            0int
        }) + overdraw_after(seen.insert(pos_key_of(a[0].quad)), (a + b).skip(1)));
        assert forall|z: int| #[trigger] ems_touches(a + b, z) implies ems_touches(a, z)
            || ems_touches(b, z) by {
            let i = choose|i: int| 0 <= i < (a + b).len() && (#[trigger] (a + b)[i]).zindex == z;
            if i < a.len() {
                assert(a[i] == (a + b)[i]);
            } else {
                assert(b[i - a.len()] == (a + b)[i]);
            }
        }
        assert forall|z: int| ems_touches(a, z) || ems_touches(b, z) implies #[trigger] ems_touches(
            a + b,
            z,
        ) by {
            if ems_touches(a, z) {
                let i = choose|i: int| 0 <= i < a.len() && (#[trigger] a[i]).zindex == z;
                assert((a + b)[i] == a[i]);
            } else {
                let i = choose|i: int| 0 <= i < b.len() && (#[trigger] b[i]).zindex == z;
                assert((a + b)[a.len() + i] == b[i]);
            }
        }
    }
}

/// The execution history: counters plus the set of exact pixel positions
/// seen so far, used to count overdraw.
pub struct ExecutionHistory {
    pub quads_emitted: usize,
    pub fills_emitted: usize,
    pub draws_emitted: usize,
    pub overdraw_positions: usize,
    pub position_set: Vec<PosKey>,
}

impl ExecutionHistory {
    /// The set of positions marked so far.
    pub open spec fn seen(self) -> Set<PosKey> {
        self.position_set@.to_set()
    }

    /// The position list holds no duplicates, so a linear scan decides
    /// membership, and the counters are consistent.
    pub open spec fn wf(self) -> bool {
        forall|i: int, j: int|
            0 <= i < j < self.position_set@.len() ==> self.position_set@[i]
                != self.position_set@[j]
    }

    /// An empty history.
    pub fn new() -> (r: Self)
        ensures
            r.wf(),
            r.quads_emitted == 0,
            r.fills_emitted == 0,
            r.draws_emitted == 0,
            r.overdraw_positions == 0,
            r.seen() == Set::<PosKey>::empty(),
    {
        let r = ExecutionHistory {
            quads_emitted: 0,
            fills_emitted: 0,
            draws_emitted: 0,
            overdraw_positions: 0,
            position_set: Vec::new(),
        };
        proof {
            assert(r.seen() =~= Set::<PosKey>::empty());
        }
        r
    }

    /// The counters as a plain statistics record.
    pub fn stats(&self) -> (r: ExecutionStats)
        ensures
            r.quads_emitted == self.quads_emitted,
            r.fills_emitted == self.fills_emitted,
            r.draws_emitted == self.draws_emitted,
            r.overdraw_positions == self.overdraw_positions,
    {
        ExecutionStats {
            quads_emitted: self.quads_emitted,
            fills_emitted: self.fills_emitted,
            draws_emitted: self.draws_emitted,
            overdraw_positions: self.overdraw_positions,
        }
    }

    /// Marks a position: a repeat increments the overdraw counter, a new
    /// position joins the seen set.
    #[verifier::loop_isolation(false)]
    fn mark_position(&mut self, position: PosKey)
        requires
            old(self).wf(),
            old(self).overdraw_positions < usize::MAX,
        ensures
            final(self).wf(),
            final(self).seen() == old(self).seen().insert(position),
            final(self).overdraw_positions == old(self).overdraw_positions + if old(
                self,
            ).seen().contains(position) {
                1int
            } else {
                0int
            },
            final(self).quads_emitted == old(self).quads_emitted,
            final(self).fills_emitted == old(self).fills_emitted,
            final(self).draws_emitted == old(self).draws_emitted,
    {
        let n = self.position_set.len();
        let mut i: usize = 0;
        let mut found = false;
        while i < n
            invariant
                0 <= i <= n,
                found <==> exists|j: int|
                    0 <= j < i && #[trigger] self.position_set@[j] == position,
            decreases n - i,
        {
            let e = self.position_set[i];
            if e == position {
                found = true;
            }
            i = i + 1;
        }
        proof {
            assert(found <==> self.position_set@.contains(position));
            assert(found <==> old(self).seen().contains(position));
        }
        if found {
            self.overdraw_positions = self.overdraw_positions + 1;
            proof {
                assert(self.seen() =~= old(self).seen().insert(position));
            }
        } else {
            let ghost before: Seq<PosKey> = self.position_set@;
            self.position_set.push(position);
            proof {
                assert forall|k: PosKey| self.seen().contains(k) implies old(self).seen().insert(
                    position,
                ).contains(k) by {
                    let j = choose|j: int|
                        0 <= j < self.position_set@.len() && self.position_set@[j] == k;
                    if j < before.len() {
                        assert(before[j] == k);
                    }
                }
                assert forall|k: PosKey| old(self).seen().insert(position).contains(k) implies self
                    .seen().contains(k) by {
                    if k == position {
                        assert(self.position_set@[before.len() as int] == k);
                    } else {
                        let j = choose|j: int| 0 <= j < before.len() && before[j] == k;
                        assert(self.position_set@[j] == k);
                    }
                }
                assert(self.seen() =~= old(self).seen().insert(position));
                assert forall|a: int, b: int|
                    0 <= a < b < self.position_set@.len() implies self.position_set@[a]
                    != self.position_set@[b] by {
                    if b == before.len() {
                        assert(before[a] == self.position_set@[a]);
                        assert(!before.contains(position));
                    }
                }
            }
        }
    }
}

/// Fills and draws address one of the three sub-buffers of their layer.
pub open spec fn cmd_targets_ok(v: CmdView) -> bool
    decreases v,
{
    match v {
        CmdView::FillRect { layer, .. } => layer < 3,
        CmdView::DrawQuad { layer, .. } => layer < 3,
        CmdView::Batch(cmds) => forall|i: int|
            0 <= i < cmds.len() ==> cmd_targets_ok(#[trigger] cmds[i]),
        _ => true,
    }
}

/// The buffer contents after bump-writing `qs` starting at cursor
/// `start`: each write lands at its cursor position, or on quad zero once
/// the cursor has run past the buffer's end.
pub open spec fn apply_writes(data: Seq<Quad>, start: int, qs: Seq<Quad>) -> Seq<Quad>
    decreases qs.len(),
{
    if qs.len() == 0 {
        data
    } else {
        apply_writes(
            data.update(
                if 0 <= start < data.len() {
                    start
                } else {
                    0
                },
                qs[0],
            ),
            start + 1,
            qs.skip(1),
        )
    }
}

/// Bump-writing two runs in turn is one run over their concatenation.
pub proof fn lemma_apply_writes_concat(data: Seq<Quad>, start: int, q1: Seq<Quad>, q2: Seq<Quad>)
    ensures
        apply_writes(apply_writes(data, start, q1), start + q1.len(), q2) == apply_writes(
            data,
            start,
            q1 + q2,
        ),
    decreases q1.len(),
{
    if q1.len() == 0 {
        assert(q1 + q2 =~= q2);
    } else {
        let d1 = data.update(
            if 0 <= start < data.len() {
                start
            } else {
                0
            },
            q1[0],
        );
        lemma_apply_writes_concat(d1, start + 1, q1.skip(1), q2);
        assert((q1 + q2)[0] == q1[0]);
        assert((q1 + q2).skip(1) =~= q1.skip(1) + q2);
    }
}

/// How executing a list of emissions changes the arena: layers appear
/// exactly for the depths the emissions touch, every slot's count grows
/// by the emissions that landed in it, existing capacities are kept and
/// new layers get the default capacities.  The continuity store is
/// untouched.
pub open spec fn arena_step(pre: RenderState, post: RenderState, ems: Seq<Emission>) -> bool {
    &&& post.wf()
    &&& post.prev_frame_buffers == pre.prev_frame_buffers
    &&& forall|z: int| post.has_layer(z) <==> pre.has_layer(z) || ems_touches(ems, z)
    &&& forall|z: int, s: int|
        #[trigger] post.count(z, s) == pre.count(z, s) + ems_count(ems, z, s)
    &&& forall|z: int, s: int| pre.has_layer(z) ==> #[trigger] post.cap(z, s) == pre.cap(z, s)
    &&& forall|z: int|
        !pre.has_layer(z) && ems_touches(ems, z) ==> #[trigger] post.cap(z, 0)
            == crate::arena::SIDE_BUFFER_QUADS as int && post.cap(z, 1)
            == crate::arena::DEFAULT_LAYER_QUADS as int && post.cap(z, 2)
            == crate::arena::SIDE_BUFFER_QUADS as int
    &&& forall|z: int, s: int|
        0 <= s < 3 && (pre.has_layer(z) || ems_touches(ems, z)) ==> #[trigger] post.slot_data(z, s)
            == apply_writes(
            if pre.has_layer(z) {
                pre.slot_data(z, s)
            } else {
                crate::arena::spec_new_layer_data(s)
            },
            pre.count(z, s),
            ems_quads(ems, z, s),
        )
}

/// How executing a list of emissions changes the history: one quad per
/// emission, split into fills and draws, with overdraw counted against
/// the running seen set.
pub open spec fn hist_step(pre: ExecutionHistory, post: ExecutionHistory, ems: Seq<Emission>) -> bool {
    &&& post.wf()
    &&& post.seen() == seen_after(pre.seen(), ems)
    &&& post.quads_emitted == pre.quads_emitted + ems.len()
    &&& post.fills_emitted == pre.fills_emitted + ems_fills(ems)
    &&& post.draws_emitted == pre.draws_emitted + (ems.len() - ems_fills(ems))
    &&& post.overdraw_positions == pre.overdraw_positions + overdraw_after(pre.seen(), ems)
}

/// The counters can absorb `n` more emissions without overflowing.
pub open spec fn arena_room(rs: RenderState, n: int) -> bool {
    forall|z: int, s: int| #[trigger] rs.count(z, s) + n <= usize::MAX
}

pub open spec fn hist_room(h: ExecutionHistory, n: int) -> bool {
    &&& h.quads_emitted + n <= usize::MAX
    &&& h.fills_emitted + n <= usize::MAX
    &&& h.draws_emitted + n <= usize::MAX
    &&& h.overdraw_positions + n <= usize::MAX
}

/// Steps compose: executing `e1` and then `e2` is one step over their
/// concatenation.
pub proof fn lemma_step_concat(
    rs0: RenderState,
    rs1: RenderState,
    rs2: RenderState,
    h0: ExecutionHistory,
    h1: ExecutionHistory,
    h2: ExecutionHistory,
    e1: Seq<Emission>,
    e2: Seq<Emission>,
)
    requires
        arena_step(rs0, rs1, e1),
        arena_step(rs1, rs2, e2),
        hist_step(h0, h1, e1),
        hist_step(h1, h2, e2),
    ensures
        arena_step(rs0, rs2, e1 + e2),
        hist_step(h0, h2, e1 + e2),
{
    lemma_arena_step_concat(rs0, rs1, rs2, e1, e2);
    lemma_ems_concat(e1, e2, h0.seen());
    lemma_ems_fills_bounds(e1);
    lemma_ems_fills_bounds(e2);
    assert((e1 + e2).len() == e1.len() + e2.len());
}

/// Arena steps compose on their own.
pub proof fn lemma_arena_step_concat(
    rs0: RenderState,
    rs1: RenderState,
    rs2: RenderState,
    e1: Seq<Emission>,
    e2: Seq<Emission>,
)
    requires
        arena_step(rs0, rs1, e1),
        arena_step(rs1, rs2, e2),
    ensures
        arena_step(rs0, rs2, e1 + e2),
{
    lemma_ems_concat(e1, e2, Set::empty());
    assert forall|z: int, s: int|
        0 <= s < 3 && (rs0.has_layer(z) || ems_touches(e1 + e2, z)) implies #[trigger] rs2.slot_data(
        z,
        s,
    ) == apply_writes(
        if rs0.has_layer(z) {
            rs0.slot_data(z, s)
        } else {
            crate::arena::spec_new_layer_data(s)
        },
        rs0.count(z, s),
        ems_quads(e1 + e2, z, s),
    ) by {
        lemma_ems_quads_len(e1, z, s);
        let base = if rs0.has_layer(z) {
            rs0.slot_data(z, s)
        } else {
            crate::arena::spec_new_layer_data(s)
        };
        let q1 = ems_quads(e1, z, s);
        let q2 = ems_quads(e2, z, s);
        if rs0.has_layer(z) || ems_touches(e1, z) {
            assert(rs1.has_layer(z));
            assert(rs1.slot_data(z, s) == apply_writes(base, rs0.count(z, s), q1));
            assert(rs2.slot_data(z, s) == apply_writes(
                rs1.slot_data(z, s),
                rs1.count(z, s),
                q2,
            ));
            assert(rs1.count(z, s) == rs0.count(z, s) + q1.len());
            lemma_apply_writes_concat(base, rs0.count(z, s), q1, q2);
        } else {
            // The first run never touched this depth: it wrote nothing
            // there, so the whole effect is the second run's.
            assert(ems_count(e1, z, s) == 0) by {
                lemma_count_untouched(e1, z, s);
            }
            assert(q1.len() == 0);
            assert(q1 =~= Seq::<Quad>::empty());
            assert(ems_touches(e2, z));
            assert(!rs1.has_layer(z));
            assert(rs2.slot_data(z, s) == apply_writes(
                crate::arena::spec_new_layer_data(s),
                rs1.count(z, s),
                q2,
            ));
            assert(rs1.count(z, s) == rs0.count(z, s));
            assert(q1 + q2 =~= q2);
        }
    }
}

/// Emissions that never touch a depth land no quads in any of its slots.
proof fn lemma_count_untouched(ems: Seq<Emission>, z: int, s: int)
    requires
        !ems_touches(ems, z),
    ensures
        ems_count(ems, z, s) == 0,
    decreases ems,
{
    if ems.len() > 0 {
        assert(ems[0].zindex != z);
        assert forall|i: int|
            0 <= i < ems.skip(1).len() implies (#[trigger] ems.skip(1)[i]).zindex != z by {
            assert(ems.skip(1)[i] == ems[i + 1]);
        }
        lemma_count_untouched(ems.skip(1), z, s);
    }
}

/// The empty step changes nothing.
pub proof fn lemma_step_empty(rs: RenderState, h: ExecutionHistory)
    requires
        rs.wf(),
        h.wf(),
    ensures
        arena_step(rs, rs, Seq::empty()),
        hist_step(h, h, Seq::empty()),
{
    assert(forall|z: int| !ems_touches(Seq::<Emission>::empty(), z));
    assert forall|z: int, s: int|
        0 <= s < 3 && rs.has_layer(z) implies #[trigger] rs.slot_data(z, s) == apply_writes(
        rs.slot_data(z, s),
        rs.count(z, s),
        ems_quads(Seq::empty(), z, s),
    ) by {
        assert(ems_quads(Seq::<Emission>::empty(), z, s) == Seq::<Quad>::empty());
    }
}

proof fn lemma_emissions_of_seq_take_step(cmds: Seq<CmdView>, lo: i64, to: i64, fb: TextureCoords, i: int)
    requires
        0 <= i < cmds.len(),
    ensures
        emissions_of_seq(cmds.take(i + 1), lo, to, fb) == emissions_of_seq(cmds.take(i), lo, to, fb)
            + emissions_of(cmds[i], lo, to, fb),
    decreases i,
{
    let a = cmds.take(i + 1);
    let b = cmds.take(i);
    if i == 0 {
        assert(a =~= seq![cmds[0]]);
        assert(b =~= Seq::<CmdView>::empty());
        assert(a.skip(1) =~= Seq::<CmdView>::empty());
        assert(emissions_of_seq(a.skip(1), lo, to, fb) == Seq::<Emission>::empty());
        assert(emissions_of_seq(b, lo, to, fb) == Seq::<Emission>::empty());
        assert(emissions_of(cmds[0], lo, to, fb) + Seq::<Emission>::empty() =~= Seq::<
            Emission,
        >::empty() + emissions_of(cmds[0], lo, to, fb));
    } else {
        lemma_emissions_of_seq_take_step(cmds.skip(1), lo, to, fb, i - 1);
        assert(a.skip(1) =~= cmds.skip(1).take(i));
        assert(b.skip(1) =~= cmds.skip(1).take(i - 1));
        assert(a[0] == cmds[0] && b[0] == cmds[0]);
        assert(cmds.skip(1)[i - 1] == cmds[i]);
        assert(emissions_of(cmds[0], lo, to, fb) + (emissions_of_seq(
            cmds.skip(1).take(i - 1),
            lo,
            to,
            fb,
        ) + emissions_of(cmds[i], lo, to, fb)) =~= (emissions_of(cmds[0], lo, to, fb)
            + emissions_of_seq(cmds.skip(1).take(i - 1), lo, to, fb)) + emissions_of(
            cmds[i],
            lo,
            to,
            fb,
        ));
    }
}

/// The emissions split at any point into a prefix's and a suffix's.
pub proof fn lemma_emissions_decompose(cmds: Seq<CmdView>, lo: i64, to: i64, fb: TextureCoords, m: int)
    requires
        0 <= m <= cmds.len(),
    ensures
        emissions_of_seq(cmds, lo, to, fb) == emissions_of_seq(cmds.take(m), lo, to, fb)
            + emissions_of_seq(cmds.skip(m), lo, to, fb),
    decreases m,
{
    if m == 0 {
        assert(cmds.take(0) =~= Seq::<CmdView>::empty());
        assert(cmds.skip(0) =~= cmds);
        assert(emissions_of_seq(cmds, lo, to, fb) =~= Seq::<Emission>::empty() + emissions_of_seq(
            cmds,
            lo,
            to,
            fb,
        ));
    } else {
        lemma_emissions_decompose(cmds.skip(1), lo, to, fb, m - 1);
        assert(cmds.take(m).skip(1) =~= cmds.skip(1).take(m - 1));
        assert(cmds.skip(m) =~= cmds.skip(1).skip(m - 1));
        assert(cmds.take(m)[0] == cmds[0]);
        let e0 = emissions_of(cmds[0], lo, to, fb);
        assert(e0 + (emissions_of_seq(cmds.skip(1).take(m - 1), lo, to, fb) + emissions_of_seq(
            cmds.skip(1).skip(m - 1),
            lo,
            to,
            fb,
        )) =~= (e0 + emissions_of_seq(cmds.skip(1).take(m - 1), lo, to, fb)) + emissions_of_seq(
            cmds.skip(1).skip(m - 1),
            lo,
            to,
            fb,
        ));
    }
}

/// After resolving the layer and writing one quad, every slot's contents
/// are the bump-write of that single emission over the state before.
proof fn lemma_singleton_data(
    pre: RenderState,
    mid: RenderState,
    post: RenderState,
    e: Emission,
    zq: i8,
    sub: usize,
)
    requires
        pre.wf(),
        mid.wf(),
        sub < 3,
        e.zindex == zq,
        e.sub == sub,
        // What layer_for_zindex guarantees from pre to mid.
        forall|z: int, s: int| #[trigger] mid.count(z, s) == pre.count(z, s),
        forall|z: int, s: int|
            z != zq ==> #[trigger] mid.cap(z, s) == pre.cap(z, s) && mid.slot_data(z, s)
                == pre.slot_data(z, s),
        pre.has_layer(zq as int) ==> mid == pre,
        !pre.has_layer(zq as int) ==> forall|s: int|
            0 <= s < 3 ==> #[trigger] mid.slot_data(zq as int, s)
                == crate::arena::spec_new_layer_data(s) && mid.cap(zq as int, s) == (if s == 1 {
                crate::arena::DEFAULT_LAYER_QUADS as int
            } else {
                crate::arena::SIDE_BUFFER_QUADS as int
            }),
        mid.has_layer(zq as int),
        forall|z: int| z != zq ==> (mid.has_layer(z) <==> pre.has_layer(z)),
        // What allocate_quad guarantees from mid to post.
        forall|z: int, s: int|
            !(z == zq && s == sub) ==> #[trigger] post.slot_data(z, s) == mid.slot_data(z, s),
        post.slot_data(zq as int, sub as int) == mid.slot_data(zq as int, sub as int).update(
            if mid.count(zq as int, sub as int) < mid.cap(zq as int, sub as int) {
                mid.count(zq as int, sub as int)
            } else {
                0
            },
            e.quad,
        ),
        forall|z: int, s: int| #[trigger] post.cap(z, s) == mid.cap(z, s),
    ensures
        forall|z: int, s: int|
            0 <= s < 3 && (pre.has_layer(z) || z == zq) ==> #[trigger] post.slot_data(z, s)
                == apply_writes(
                if pre.has_layer(z) {
                    pre.slot_data(z, s)
                } else {
                    crate::arena::spec_new_layer_data(s)
                },
                pre.count(z, s),
                ems_quads(seq![e], z, s),
            ),
{
    assert forall|z: int, s: int|
        0 <= s < 3 && (pre.has_layer(z) || z == zq) implies #[trigger] post.slot_data(z, s)
        == apply_writes(
        if pre.has_layer(z) {
            pre.slot_data(z, s)
        } else {
            crate::arena::spec_new_layer_data(s)
        },
        pre.count(z, s),
        ems_quads(seq![e], z, s),
    ) by {
        let base = if pre.has_layer(z) {
            pre.slot_data(z, s)
        } else {
            crate::arena::spec_new_layer_data(s)
        };
        let qs = ems_quads(seq![e], z, s);
        assert(seq![e].skip(1) =~= Seq::<Emission>::empty());
        assert(ems_quads(Seq::<Emission>::empty(), z, s) == Seq::<Quad>::empty());
        assert(seq![e][0] == e);
        if z == zq && s == sub {
            assert(qs == seq![e.quad] + Seq::<Quad>::empty());
            assert(qs =~= seq![e.quad]);
            assert(qs[0] == e.quad);
            assert(qs.skip(1) =~= Seq::<Quad>::empty());
            let c = pre.count(z, s);
            let w = if 0 <= c < base.len() {
                c
            } else {
                0
            };
            assert(apply_writes(base, c, qs) == apply_writes(base.update(w, e.quad), c + 1, qs.skip(1)));
            assert(apply_writes(base.update(w, e.quad), c + 1, Seq::<Quad>::empty())
                == base.update(w, e.quad));
            // The write index formulas coincide: the base is exactly
            // capacity long and the cursor is never negative.
            if pre.has_layer(z) {
                crate::arena::lemma_slot_data_len(pre, z, s);
                assert(base.len() == mid.cap(z, s));
            } else {
                assert(base.len() == mid.cap(z, s));
            }
            assert(c >= 0);
            assert(mid.count(z, s) == c);
            assert(post.slot_data(z, s) == base.update(w, e.quad));
        } else {
            assert(qs =~= Seq::<Quad>::empty());
            assert(apply_writes(base, pre.count(z, s), qs) == base);
            if z == zq {
                assert(post.slot_data(z, s) == mid.slot_data(z, s));
            } else {
                assert(mid.cap(z, s) == pre.cap(z, s));
                assert(mid.slot_data(z, s) == pre.slot_data(z, s));
                assert(post.slot_data(z, s) == pre.slot_data(z, s));
            }
        }
    }
}

/// Executes one command tree: control commands do nothing, fills and
/// draws allocate a quad in their layer slot and mark the history, and a
/// batch executes its children in order.
#[verifier::loop_isolation(false)]
#[verifier::rlimit(60)]
fn execute_command_into(
    cmd: &RenderCommand,
    rs: &mut RenderState,
    lo: i64,
    to: i64,
    filled_box: &TextureCoords,
    history: &mut ExecutionHistory,
)
    requires
        old(rs).wf(),
        old(history).wf(),
        cmd@.wf(),
        cmd_targets_ok(cmd@),
        0 <= lo <= OFFSET_LIMIT,
        0 <= to <= OFFSET_LIMIT,
        filled_box.wf(),
        arena_room(*old(rs), emissions_of(cmd@, lo, to, *filled_box).len() as int),
        hist_room(*old(history), emissions_of(cmd@, lo, to, *filled_box).len() as int),
    ensures
        arena_step(*old(rs), *final(rs), emissions_of(cmd@, lo, to, *filled_box)),
        hist_step(*old(history), *final(history), emissions_of(cmd@, lo, to, *filled_box)),
    decreases cmd@.height(),
{
    broadcast use crate::command::lemma_views_of_len;

    match cmd {
        RenderCommand::FillRect { layer, zindex, rect, color, hsv } => {
            let q = Quad {
                left: rect.x - lo,
                top: rect.y - to,
                right: rect.x + rect.width - lo,
                bottom: rect.y + rect.height - to,
                tex_left: filled_box.left,
                tex_top: filled_box.top,
                tex_right: filled_box.right,
                tex_bottom: filled_box.bottom,
                fg_color: *color,
                alt_color: None,
                hsv: *hsv,
                mode: crate::command::QuadMode::SolidColor,
            };
            let ghost e = Emission { zindex: *zindex, sub: *layer, quad: q, is_fill: true };
            let ghost ems = emissions_of(cmd@, lo, to, *filled_box);
            proof {
                assert(ems == seq![e]);
                assert(ems.len() == 1);
                assert(ems[0] == e);
                assert(ems.skip(1) =~= Seq::<Emission>::empty());
            }
            proof {
                assert(e.quad == q);
                assert(ems_fills(ems) == 1) by {
                    assert(ems_fills(ems.skip(1)) == 0);
                }
                assert(seen_after(
                    old(history).seen().insert(pos_key_of(q)),
                    ems.skip(1),
                ) == old(history).seen().insert(pos_key_of(q)));
                assert(overdraw_after(
                    old(history).seen().insert(pos_key_of(q)),
                    ems.skip(1),
                ) == 0);
                assert(seen_after(old(history).seen(), ems) == old(history).seen().insert(
                    pos_key_of(q),
                ));
                assert(overdraw_after(old(history).seen(), ems) == if old(
                    history,
                ).seen().contains(pos_key_of(q)) {
                    1int
                } else {
                    0int
                });
                assert forall|z: int| #[trigger] ems_touches(ems, z) <==> z == zindex by {
                    if z == zindex {
                        assert(ems[0].zindex == z);
                    }
                }
                assert forall|z: int, s: int|
                    #[trigger] ems_count(ems, z, s) == if z == zindex && s == layer {
                        1int
                    } else {
                        0int
                    } by {
                    assert(ems_count(ems.skip(1), z, s) == 0);
                }
            }
            history.mark_position(PosKey { left: q.left, top: q.top, right: q.right, bottom: q.bottom });
            let idx = rs.layer_for_zindex(*zindex);
            let ghost rs_lf: RenderState = *rs;
            proof {
                assert(rs.count(*zindex as int, *layer as int) == rs.layers@[idx as int].vb@[*layer as int].next_quad);
                assert(rs.count(*zindex as int, *layer as int) <= usize::MAX - 1);
            }
            rs.allocate_quad(idx, *layer, q);
            proof {
                lemma_singleton_data(*old(rs), rs_lf, *rs, e, *zindex, *layer);
            }
            history.fills_emitted = history.fills_emitted + 1;
            history.quads_emitted = history.quads_emitted + 1;
        },
        RenderCommand::DrawQuad {
            layer,
            zindex,
            position,
            texture,
            fg_color,
            alt_color,
            hsv,
            mode,
        } => {
            let q = Quad {
                left: position.x - lo,
                top: position.y - to,
                right: position.x + position.width - lo,
                bottom: position.y + position.height - to,
                tex_left: texture.left,
                tex_top: texture.top,
                tex_right: texture.right,
                tex_bottom: texture.bottom,
                fg_color: *fg_color,
                alt_color: *alt_color,
                hsv: *hsv,
                mode: *mode,
            };
            let ghost e = Emission { zindex: *zindex, sub: *layer, quad: q, is_fill: false };
            let ghost ems = emissions_of(cmd@, lo, to, *filled_box);
            proof {
                assert(ems == seq![e]);
                assert(ems.len() == 1);
                assert(ems[0] == e);
                assert(ems.skip(1) =~= Seq::<Emission>::empty());
            }
            proof {
                assert(e.quad == q);
                assert(ems_fills(ems) == 0) by {
                    assert(ems_fills(ems.skip(1)) == 0);
                }
                assert(seen_after(
                    old(history).seen().insert(pos_key_of(q)),
                    ems.skip(1),
                ) == old(history).seen().insert(pos_key_of(q)));
                assert(overdraw_after(
                    old(history).seen().insert(pos_key_of(q)),
                    ems.skip(1),
                ) == 0);
                assert(seen_after(old(history).seen(), ems) == old(history).seen().insert(
                    pos_key_of(q),
                ));
                assert(overdraw_after(old(history).seen(), ems) == if old(
                    history,
                ).seen().contains(pos_key_of(q)) {
                    1int
                } else {
                    0int
                });
                assert forall|z: int| #[trigger] ems_touches(ems, z) <==> z == zindex by {
                    if z == zindex {
                        assert(ems[0].zindex == z);
                    }
                }
                assert forall|z: int, s: int|
                    #[trigger] ems_count(ems, z, s) == if z == zindex && s == layer {
                        1int
                    } else {
                        0int
                    } by {
                    assert(ems_count(ems.skip(1), z, s) == 0);
                }
            }
            history.mark_position(PosKey { left: q.left, top: q.top, right: q.right, bottom: q.bottom });
            let idx = rs.layer_for_zindex(*zindex);
            let ghost rs_lf: RenderState = *rs;
            proof {
                assert(rs.count(*zindex as int, *layer as int) == rs.layers@[idx as int].vb@[*layer as int].next_quad);
                assert(rs.count(*zindex as int, *layer as int) <= usize::MAX - 1);
            }
            rs.allocate_quad(idx, *layer, q);
            proof {
                lemma_singleton_data(*old(rs), rs_lf, *rs, e, *zindex, *layer);
            }
            history.draws_emitted = history.draws_emitted + 1;
            history.quads_emitted = history.quads_emitted + 1;
        },
        RenderCommand::Batch(cmds) => {
            let ghost views = crate::command::views_of(cmds@);
            let ghost total = emissions_of_seq(views, lo, to, *filled_box);
            proof {
                assert(total == emissions_of(cmd@, lo, to, *filled_box));
                assert(views.take(0) =~= Seq::<CmdView>::empty());
                lemma_step_empty(*rs, *history);
            }
            let n = cmds.len();
            let mut i: usize = 0;
            while i < n
                invariant
                    n == cmds@.len(),
                    0 <= i <= n,
                    arena_step(
                        *old(rs),
                        *rs,
                        emissions_of_seq(views.take(i as int), lo, to, *filled_box),
                    ),
                    hist_step(
                        *old(history),
                        *history,
                        emissions_of_seq(views.take(i as int), lo, to, *filled_box),
                    ),
                decreases n - i,
            {
                let ghost done = emissions_of_seq(views.take(i as int), lo, to, *filled_box);
                proof {
                    assert(cmds@[i as int]@ == views[i as int]);
                    crate::command::lemma_height_of_element(views, i as int);
                    lemma_emissions_of_seq_take_step(views, lo, to, *filled_box, i as int);
                    lemma_emissions_decompose(views, lo, to, *filled_box, i as int);
                    let child = emissions_of(views[i as int], lo, to, *filled_box);
                    let rest = emissions_of_seq(views.skip(i as int), lo, to, *filled_box);
                    assert(total == done + rest);
                    assert(views.skip(i as int)[0] == views[i as int]);
                    assert(views.skip(i as int).skip(1) =~= views.skip(i as int + 1));
                    lemma_emissions_decompose(views.skip(i as int), lo, to, *filled_box, 1);
                    assert(views.skip(i as int).take(1) =~= seq![views[i as int]]);
                    assert(emissions_of_seq(seq![views[i as int]], lo, to, *filled_box) =~= child
                        + Seq::<Emission>::empty());
                    assert(child + Seq::<Emission>::empty() =~= child);
                    assert(rest.len() >= child.len());
                    assert(total.len() == done.len() + rest.len());
                    assert forall|z: int, s: int| rs.count(z, s) + child.len() <= usize::MAX by {
                        lemma_ems_count_bounds(done, z, s);
                        assert(old(rs).count(z, s) + total.len() <= usize::MAX);
                    }
                    lemma_ems_fills_bounds(done);
                    lemma_overdraw_bounds(old(history).seen(), done);
                }
                let ghost rs_mid: RenderState = *rs;
                let ghost h_mid: ExecutionHistory = *history;
                let c = &cmds[i];
                execute_command_into(c, rs, lo, to, filled_box, history);
                proof {
                    lemma_step_concat(
                        *old(rs),
                        rs_mid,
                        *rs,
                        *old(history),
                        h_mid,
                        *history,
                        done,
                        emissions_of(views[i as int], lo, to, *filled_box),
                    );
                }
                i = i + 1;
            }
            proof {
                assert(views.take(n as int) =~= views);
            }
        },
        _ => {
            proof {
                assert(emissions_of(cmd@, lo, to, *filled_box) == Seq::<Emission>::empty());
                lemma_step_empty(*rs, *history);
            }
        },
    }
}

/// Executes a command list into the arena, accumulating into `history`.
#[verifier::loop_isolation(false)]
pub(crate) fn execute_commands_into(
    commands: &[RenderCommand],
    rs: &mut RenderState,
    lo: i64,
    to: i64,
    filled_box: &TextureCoords,
    history: &mut ExecutionHistory,
)
    requires
        old(rs).wf(),
        old(history).wf(),
        crate::frame::cmds_ok(commands@),
        0 <= lo <= OFFSET_LIMIT,
        0 <= to <= OFFSET_LIMIT,
        filled_box.wf(),
        arena_room(
            *old(rs),
            emissions_of_seq(crate::command::views_of(commands@), lo, to, *filled_box).len() as int,
        ),
        hist_room(
            *old(history),
            emissions_of_seq(crate::command::views_of(commands@), lo, to, *filled_box).len() as int,
        ),
    ensures
        arena_step(
            *old(rs),
            *final(rs),
            emissions_of_seq(crate::command::views_of(commands@), lo, to, *filled_box),
        ),
        hist_step(
            *old(history),
            *final(history),
            emissions_of_seq(crate::command::views_of(commands@), lo, to, *filled_box),
        ),
{
    broadcast use crate::command::lemma_views_of_len;

    let ghost views = crate::command::views_of(commands@);
    let ghost total = emissions_of_seq(views, lo, to, *filled_box);
    proof {
        assert(views.take(0) =~= Seq::<CmdView>::empty());
        lemma_step_empty(*rs, *history);
    }
    let n = commands.len();
    let mut i: usize = 0;
    while i < n
        invariant
            n == commands@.len(),
            0 <= i <= n,
            arena_step(*old(rs), *rs, emissions_of_seq(views.take(i as int), lo, to, *filled_box)),
            hist_step(
                *old(history),
                *history,
                emissions_of_seq(views.take(i as int), lo, to, *filled_box),
            ),
        decreases n - i,
    {
        let ghost done = emissions_of_seq(views.take(i as int), lo, to, *filled_box);
        proof {
            assert(commands@[i as int]@ == views[i as int]);
            lemma_emissions_of_seq_take_step(views, lo, to, *filled_box, i as int);
            lemma_emissions_decompose(views, lo, to, *filled_box, i as int);
            let child = emissions_of(views[i as int], lo, to, *filled_box);
            let rest = emissions_of_seq(views.skip(i as int), lo, to, *filled_box);
            assert(total == done + rest);
            assert(views.skip(i as int)[0] == views[i as int]);
            lemma_emissions_decompose(views.skip(i as int), lo, to, *filled_box, 1);
            assert(views.skip(i as int).take(1) =~= seq![views[i as int]]);
            assert(emissions_of_seq(seq![views[i as int]], lo, to, *filled_box) =~= child + Seq::<
                Emission,
            >::empty());
            assert(child + Seq::<Emission>::empty() =~= child);
            assert(rest.len() >= child.len());
            assert(total.len() == done.len() + rest.len());
            assert forall|z: int, s: int| rs.count(z, s) + child.len() <= usize::MAX by {
                lemma_ems_count_bounds(done, z, s);
                assert(old(rs).count(z, s) + total.len() <= usize::MAX);
            }
            lemma_ems_fills_bounds(done);
            lemma_overdraw_bounds(old(history).seen(), done);
        }
        let ghost rs_mid: RenderState = *rs;
        let ghost h_mid: ExecutionHistory = *history;
        let c = &commands[i];
        execute_command_into(c, rs, lo, to, filled_box, history);
        proof {
            lemma_step_concat(
                *old(rs),
                rs_mid,
                *rs,
                *old(history),
                h_mid,
                *history,
                done,
                emissions_of(views[i as int], lo, to, *filled_box),
            );
        }
        i = i + 1;
    }
    proof {
        assert(views.take(n as int) =~= views);
    }
}

/// Executes a command list and reports the history of a fresh observer:
/// every quad, fill, draw and overdrawn position of exactly this list.
pub fn execute_commands_with_history(
    commands: &[RenderCommand],
    rs: &mut RenderState,
    lo: i64,
    to: i64,
    filled_box: &TextureCoords,
) -> (history: ExecutionHistory)
    requires
        old(rs).wf(),
        crate::frame::cmds_ok(commands@),
        0 <= lo <= OFFSET_LIMIT,
        0 <= to <= OFFSET_LIMIT,
        filled_box.wf(),
        arena_room(
            *old(rs),
            emissions_of_seq(crate::command::views_of(commands@), lo, to, *filled_box).len() as int,
        ),
        emissions_of_seq(crate::command::views_of(commands@), lo, to, *filled_box).len()
            <= usize::MAX,
    ensures
        arena_step(
            *old(rs),
            *final(rs),
            emissions_of_seq(crate::command::views_of(commands@), lo, to, *filled_box),
        ),
        history.wf(),
        ({
            let ems = emissions_of_seq(crate::command::views_of(commands@), lo, to, *filled_box);
            &&& history.quads_emitted == ems.len()
            &&& history.fills_emitted == ems_fills(ems)
            &&& history.draws_emitted == ems.len() - ems_fills(ems)
            &&& history.overdraw_positions == overdraw_after(Set::empty(), ems)
            &&& history.seen() == seen_after(Set::empty(), ems)
        }),
{
    let mut history = ExecutionHistory::new();
    proof {
        assert(history.seen() =~= Set::<PosKey>::empty());
    }
    execute_commands_into(commands, rs, lo, to, filled_box, &mut history);
    history
}

/// Executes a command list without observing it.
pub fn execute_commands(
    commands: &[RenderCommand],
    rs: &mut RenderState,
    lo: i64,
    to: i64,
    filled_box: &TextureCoords,
)
    requires
        old(rs).wf(),
        crate::frame::cmds_ok(commands@),
        0 <= lo <= OFFSET_LIMIT,
        0 <= to <= OFFSET_LIMIT,
        filled_box.wf(),
        arena_room(
            *old(rs),
            emissions_of_seq(crate::command::views_of(commands@), lo, to, *filled_box).len() as int,
        ),
        emissions_of_seq(crate::command::views_of(commands@), lo, to, *filled_box).len()
            <= usize::MAX,
    ensures
        arena_step(
            *old(rs),
            *final(rs),
            emissions_of_seq(crate::command::views_of(commands@), lo, to, *filled_box),
        ),
{
    let _ = execute_commands_with_history(commands, rs, lo, to, filled_box);
}

/// The horizontal draw offset for a viewport: half its width, so that
/// positions are centered on the viewport.
pub open spec fn spec_offset(v: u32) -> i64 {
    (v / 2) as i64
}

/// The first `j` of a frame's pane emission prefixes never shrink.
proof fn lemma_panes_prefix_len(
    frame: crate::frame::Frame,
    i: int,
    j: int,
    lo: i64,
    to: i64,
    fb: TextureCoords,
)
    requires
        0 <= i <= j,
    ensures
        frame.panes_ems_prefix(i, lo, to, fb).len() <= frame.panes_ems_prefix(j, lo, to, fb).len(),
    decreases j - i,
{
    if i < j {
        lemma_panes_prefix_len(frame, i, j - 1, lo, to, fb);
    }
}

/// Across one section, the snapshot lookup for every slot moves by the
/// section's emission count.
pub proof fn lemma_section_delta(pre: RenderState, post: RenderState, ems: Seq<Emission>)
    requires
        arena_step(pre, post, ems),
    ensures
        forall|z: i8, s: int|
            0 <= s < 3 ==> #[trigger] crate::plan::spec_quad_count(
                crate::arena::spec_snapshots(post.layers@),
                z,
                s as usize,
            ) == crate::plan::spec_quad_count(
                crate::arena::spec_snapshots(pre.layers@),
                z,
                s as usize,
            ) + ems_count(ems, z as int, s),
{
    assert forall|z: i8, s: int| 0 <= s < 3 implies #[trigger] crate::plan::spec_quad_count(
        crate::arena::spec_snapshots(post.layers@),
        z,
        s as usize,
    ) == crate::plan::spec_quad_count(
        crate::arena::spec_snapshots(pre.layers@),
        z,
        s as usize,
    ) + ems_count(ems, z as int, s) by {
        crate::arena::lemma_snapshot_count(pre.layers@, z, s as usize);
        crate::arena::lemma_snapshot_count(post.layers@, z, s as usize);
        assert((s as usize) as int == s);
        assert(post.count(z as int, s) == pre.count(z as int, s) + ems_count(ems, z as int, s));
    }
}

/// A history grown from empty over `ems` reports exactly `stats_of(ems)`.
pub proof fn lemma_stats_eq(h: ExecutionHistory, r: ExecutionStats, ems: Seq<Emission>)
    requires
        ems.len() <= usize::MAX,
        h.quads_emitted == ems.len(),
        h.fills_emitted == ems_fills(ems),
        h.draws_emitted == ems.len() - ems_fills(ems),
        h.overdraw_positions == overdraw_after(Set::empty(), ems),
        r.quads_emitted == h.quads_emitted,
        r.fills_emitted == h.fills_emitted,
        r.draws_emitted == h.draws_emitted,
        r.overdraw_positions == h.overdraw_positions,
    ensures
        r == stats_of(ems),
{
    lemma_ems_fills_bounds(ems);
    lemma_overdraw_bounds(Set::empty(), ems);
}

/// Builds the render plan for one frame: a background section, one
/// section per visible pane (marked skippable when its fingerprint
/// matches the previous frame's), and a chrome section, snapshotting
/// every layer slot's quad count around each section so that the ranges
/// record exactly which quads each section wrote.
#[verifier::loop_isolation(false)]
#[verifier::rlimit(100)]
pub fn execute_frame(
    frame: &crate::frame::Frame,
    rs: &mut RenderState,
    pixel_dims: (u32, u32),
    prev_command_hashes: &Vec<(usize, u64)>,
    filled_box: &TextureCoords,
) -> (plan: crate::plan::RenderPlan)
    requires
        old(rs).wf(),
        frame.wf(),
        filled_box.wf(),
        arena_room(
            *old(rs),
            frame.frame_ems(
                spec_offset(pixel_dims.0),
                spec_offset(pixel_dims.1),
                *filled_box,
            ).len() as int,
        ),
        frame.frame_ems(spec_offset(pixel_dims.0), spec_offset(pixel_dims.1), *filled_box).len()
            <= usize::MAX,
    ensures
        ({
            let lo = spec_offset(pixel_dims.0);
            let to = spec_offset(pixel_dims.1);
            let fb = *filled_box;
            let n = frame.panes@.len() as int;
            let secs = plan.sections@;
            &&& plan.viewport_width == pixel_dims.0
            &&& plan.viewport_height == pixel_dims.1
            &&& secs.len() == n + 2
            &&& secs[0].quad_range.start@ == crate::arena::spec_snapshots(old(rs).layers@)
            &&& forall|i: int|
                1 <= i < n + 2 ==> (#[trigger] secs[i]).quad_range.start@ == secs[i
                    - 1].quad_range.end@
            &&& secs[n + 1].quad_range.end@ == crate::arena::spec_snapshots(final(rs).layers@)
            &&& secs[0].scissor is None
            &&& secs[0].content_hash == 0
            &&& secs[0].skippable == false
            &&& secs[0].stats == Some(stats_of(frame.bg_ems(lo, to, fb)))
            &&& forall|p: int|
                0 <= p < n ==> {
                    let sec = #[trigger] secs[p + 1];
                    &&& sec.scissor == Some(
                        crate::plan::ScissorRect::spec_from_pane_bounds(
                            frame.panes@[p].bounds,
                            pixel_dims.0,
                            pixel_dims.1,
                        ),
                    )
                    &&& sec.content_hash == frame.panes@[p].command_hash
                    &&& sec.skippable == (crate::frame::spec_hash_lookup(
                        prev_command_hashes@,
                        frame.panes@[p].pane_id,
                    ) == Some(frame.panes@[p].command_hash))
                    &&& sec.stats == Some(stats_of(frame.pane_ems(p, lo, to, fb)))
                }
            &&& secs[n + 1].scissor is None
            &&& secs[n + 1].content_hash == 0
            &&& secs[n + 1].skippable == false
            &&& secs[n + 1].stats == Some(stats_of(frame.chrome_ems(lo, to, fb)))
            &&& forall|z: i8, s: int|
                0 <= s < 3 ==> #[trigger] crate::plan::spec_quad_count(
                    secs[0].quad_range.end@,
                    z,
                    s as usize,
                ) == crate::plan::spec_quad_count(secs[0].quad_range.start@, z, s as usize)
                    + ems_count(frame.bg_ems(lo, to, fb), z as int, s)
            &&& forall|p: int, z: i8, s: int|
                0 <= p < n && 0 <= s < 3 ==> #[trigger] crate::plan::spec_quad_count(
                    secs[p + 1].quad_range.end@,
                    z,
                    s as usize,
                ) == crate::plan::spec_quad_count(
                    secs[p + 1].quad_range.start@,
                    z,
                    s as usize,
                ) + ems_count(frame.pane_ems(p, lo, to, fb), z as int, s)
            &&& forall|z: i8, s: int|
                0 <= s < 3 ==> #[trigger] crate::plan::spec_quad_count(
                    secs[n + 1].quad_range.end@,
                    z,
                    s as usize,
                ) == crate::plan::spec_quad_count(
                    secs[n + 1].quad_range.start@,
                    z,
                    s as usize,
                ) + ems_count(frame.chrome_ems(lo, to, fb), z as int, s)
            &&& arena_step(*old(rs), *final(rs), frame.frame_ems(lo, to, fb))
        }),
{
    let lo = (pixel_dims.0 / 2) as i64;
    let to = (pixel_dims.1 / 2) as i64;
    let ghost fb = *filled_box;
    let ghost n = frame.panes@.len() as int;
    let ghost bg = frame.bg_ems(lo, to, fb);
    let ghost panes_all = frame.panes_ems_prefix(n, lo, to, fb);
    let ghost chrome = frame.chrome_ems(lo, to, fb);
    let ghost total = frame.frame_ems(lo, to, fb);
    proof {
        assert(total == bg + panes_all + chrome);
        assert(total.len() == bg.len() + panes_all.len() + chrome.len());
    }
    let mut plan = crate::plan::RenderPlan::new(pixel_dims.0, pixel_dims.1);

    // Background section: always executed fresh.
    let bg_start = crate::arena::snapshot_layers(rs);
    let ghost rs0: RenderState = *rs;
    let bg_history = execute_commands_with_history(
        frame.background.as_slice(),
        rs,
        lo,
        to,
        filled_box,
    );
    let bg_end = crate::arena::snapshot_layers(rs);
    let bg_stats = bg_history.stats();
    proof {
        assert(bg.len() <= usize::MAX);
        lemma_stats_eq(bg_history, bg_stats, bg);
        lemma_section_delta(rs0, *rs, bg);
    }
    plan.sections.push(
        crate::plan::RenderSection {
            scissor: None,
            content_hash: 0,
            quad_range: crate::plan::QuadRange { start: bg_start, end: bg_end },
            skippable: false,
            stats: Some(bg_stats),
        },
    );
    let ghost after_bg: RenderState = *rs;

    // One section per visible pane.
    let pane_count = frame.panes.len();
    let mut p: usize = 0;
    let mut last_end = crate::arena::snapshot_layers(rs);
    proof {
        assert(frame.panes_ems_prefix(0, lo, to, fb) =~= Seq::<Emission>::empty());
        lemma_step_empty(*rs, bg_history);
        assert(bg + frame.panes_ems_prefix(0, lo, to, fb) =~= bg);
    }
    while p < pane_count
        invariant
            pane_count == frame.panes@.len(),
            0 <= p <= pane_count,
            plan.sections@.len() == p + 1,
            plan.viewport_width == pixel_dims.0,
            plan.viewport_height == pixel_dims.1,
            arena_step(*old(rs), *rs, bg + frame.panes_ems_prefix(p as int, lo, to, fb)),
            last_end@ == crate::arena::spec_snapshots(rs.layers@),
            last_end@ == plan.sections@[p as int].quad_range.end@,
            plan.sections@[0].quad_range.start@ == crate::arena::spec_snapshots(old(rs).layers@),
            forall|i: int|
                1 <= i < p + 1 ==> (#[trigger] plan.sections@[i]).quad_range.start@
                    == plan.sections@[i - 1].quad_range.end@,
            plan.sections@[0].scissor is None,
            plan.sections@[0].content_hash == 0,
            plan.sections@[0].skippable == false,
            plan.sections@[0].stats == Some(stats_of(bg)),
            forall|q: int|
                0 <= q < p ==> {
                    let sec = #[trigger] plan.sections@[q + 1];
                    &&& sec.scissor == Some(
                        crate::plan::ScissorRect::spec_from_pane_bounds(
                            frame.panes@[q].bounds,
                            pixel_dims.0,
                            pixel_dims.1,
                        ),
                    )
                    &&& sec.content_hash == frame.panes@[q].command_hash
                    &&& sec.skippable == (crate::frame::spec_hash_lookup(
                        prev_command_hashes@,
                        frame.panes@[q].pane_id,
                    ) == Some(frame.panes@[q].command_hash))
                    &&& sec.stats == Some(stats_of(frame.pane_ems(q, lo, to, fb)))
                },
            forall|z: i8, s: int|
                0 <= s < 3 ==> #[trigger] crate::plan::spec_quad_count(
                    plan.sections@[0].quad_range.end@,
                    z,
                    s as usize,
                ) == crate::plan::spec_quad_count(
                    plan.sections@[0].quad_range.start@,
                    z,
                    s as usize,
                ) + ems_count(bg, z as int, s),
            forall|q: int, z: i8, s: int|
                0 <= q < p && 0 <= s < 3 ==> #[trigger] crate::plan::spec_quad_count(
                    plan.sections@[q + 1].quad_range.end@,
                    z,
                    s as usize,
                ) == crate::plan::spec_quad_count(
                    plan.sections@[q + 1].quad_range.start@,
                    z,
                    s as usize,
                ) + ems_count(frame.pane_ems(q, lo, to, fb), z as int, s),
        decreases pane_count - p,
    {
        let ghost done = bg + frame.panes_ems_prefix(p as int, lo, to, fb);
        let ghost pane_e = frame.pane_ems(p as int, lo, to, fb);
        proof {
            assert(frame.panes_ems_prefix(p as int + 1, lo, to, fb) == frame.panes_ems_prefix(
                p as int,
                lo,
                to,
                fb,
            ) + pane_e);
            lemma_panes_prefix_len(*frame, p as int + 1, n, lo, to, fb);
            assert(done.len() + pane_e.len() <= total.len());
            assert forall|z: int, s: int| rs.count(z, s) + pane_e.len() <= usize::MAX by {
                lemma_ems_count_bounds(done, z, s);
                assert(old(rs).count(z, s) + total.len() <= usize::MAX);
            }
        }
        let pane = &frame.panes[p];
        let prev = crate::frame::hash_lookup(prev_command_hashes, pane.pane_id);
        let skippable = match prev {
            Some(h) => h == pane.command_hash,
            None => false,
        };
        let pane_start = last_end;
        let ghost rs_mid: RenderState = *rs;
        let pane_history = execute_commands_with_history(
            pane.commands.as_slice(),
            rs,
            lo,
            to,
            filled_box,
        );
        let pane_end = crate::arena::snapshot_layers(rs);
        let pane_stats = pane_history.stats();
        proof {
            assert(pane_e.len() <= usize::MAX);
            lemma_stats_eq(pane_history, pane_stats, pane_e);
            lemma_section_delta(rs_mid, *rs, pane_e);
            lemma_arena_step_concat(*old(rs), rs_mid, *rs, done, pane_e);
            assert(bg + frame.panes_ems_prefix(p as int + 1, lo, to, fb) =~= done + pane_e);
        }
        let next_end = crate::arena::snapshot_layers(rs);
        let scissor = crate::plan::ScissorRect::from_pane_bounds(
            &pane.bounds,
            pixel_dims.0,
            pixel_dims.1,
        );
        plan.sections.push(
            crate::plan::RenderSection {
                scissor: Some(scissor),
                content_hash: pane.command_hash,
                quad_range: crate::plan::QuadRange { start: pane_start, end: pane_end },
                skippable,
                stats: Some(pane_stats),
            },
        );
        last_end = next_end;
        p = p + 1;
    }

    // Chrome section: tab bar, splits, borders and modal, executed fresh.
    let ghost done_panes = bg + panes_all;
    let chrome_start = last_end;
    let ghost rs_c0: RenderState = *rs;
    let ghost t_e = emissions_of_seq(
        crate::command::views_of(frame.chrome.tab_bar@),
        lo,
        to,
        fb,
    );
    let ghost s_e = emissions_of_seq(crate::command::views_of(frame.chrome.splits@), lo, to, fb);
    let ghost b_e = emissions_of_seq(crate::command::views_of(frame.chrome.borders@), lo, to, fb);
    let ghost m_e = emissions_of_seq(crate::command::views_of(frame.chrome.modal@), lo, to, fb);
    proof {
        assert(chrome == t_e + s_e + b_e + m_e);
        assert(chrome.len() == t_e.len() + s_e.len() + b_e.len() + m_e.len());
        assert(done_panes.len() + chrome.len() == total.len());
        assert forall|z: int, s: int| rs.count(z, s) + chrome.len() <= usize::MAX by {
            lemma_ems_count_bounds(done_panes, z, s);
            assert(old(rs).count(z, s) + total.len() <= usize::MAX);
        }
    }
    let mut chrome_history = ExecutionHistory::new();
    proof {
        assert(chrome_history.seen() =~= Set::<PosKey>::empty());
        lemma_step_empty(*rs, chrome_history);
        assert(Seq::<Emission>::empty() + t_e =~= t_e);
    }
    let ghost rs_t0: RenderState = *rs;
    let ghost h_t0: ExecutionHistory = chrome_history;
    execute_commands_into(
        frame.chrome.tab_bar.as_slice(),
        rs,
        lo,
        to,
        filled_box,
        &mut chrome_history,
    );
    let ghost rs_t1: RenderState = *rs;
    let ghost h_t1: ExecutionHistory = chrome_history;
    proof {
        lemma_arena_step_concat(*old(rs), rs_c0, *rs, done_panes, t_e);
        assert forall|z: int, s: int| rs.count(z, s) + s_e.len() <= usize::MAX by {
            lemma_ems_count_bounds(done_panes + t_e, z, s);
            assert(old(rs).count(z, s) + total.len() <= usize::MAX);
            assert((done_panes + t_e).len() + s_e.len() <= total.len());
        }
        lemma_ems_fills_bounds(t_e);
        lemma_overdraw_bounds(Set::empty(), t_e);
        assert(t_e.len() + s_e.len() <= total.len());
    }
    execute_commands_into(
        frame.chrome.splits.as_slice(),
        rs,
        lo,
        to,
        filled_box,
        &mut chrome_history,
    );
    proof {
        lemma_step_concat(rs_t0, rs_t1, *rs, h_t0, h_t1, chrome_history, t_e, s_e);
    }
    let ghost rs_t2: RenderState = *rs;
    let ghost h_t2: ExecutionHistory = chrome_history;
    proof {
        lemma_arena_step_concat(*old(rs), rs_c0, *rs, done_panes, t_e + s_e);
        assert forall|z: int, s: int| rs.count(z, s) + b_e.len() <= usize::MAX by {
            lemma_ems_count_bounds(done_panes + (t_e + s_e), z, s);
            assert(old(rs).count(z, s) + total.len() <= usize::MAX);
            assert((done_panes + (t_e + s_e)).len() + b_e.len() <= total.len());
        }
        lemma_ems_fills_bounds(t_e + s_e);
        lemma_overdraw_bounds(Set::empty(), t_e + s_e);
        assert((t_e + s_e).len() + b_e.len() <= total.len());
    }
    execute_commands_into(
        frame.chrome.borders.as_slice(),
        rs,
        lo,
        to,
        filled_box,
        &mut chrome_history,
    );
    proof {
        lemma_step_concat(rs_t0, rs_t2, *rs, h_t0, h_t2, chrome_history, t_e + s_e, b_e);
    }
    let ghost rs_t3: RenderState = *rs;
    let ghost h_t3: ExecutionHistory = chrome_history;
    proof {
        lemma_arena_step_concat(*old(rs), rs_c0, *rs, done_panes, t_e + s_e + b_e);
        assert forall|z: int, s: int| rs.count(z, s) + m_e.len() <= usize::MAX by {
            lemma_ems_count_bounds(done_panes + (t_e + s_e + b_e), z, s);
            assert(old(rs).count(z, s) + total.len() <= usize::MAX);
            assert((done_panes + (t_e + s_e + b_e)).len() + m_e.len() <= total.len());
        }
        lemma_ems_fills_bounds(t_e + s_e + b_e);
        lemma_overdraw_bounds(Set::empty(), t_e + s_e + b_e);
        assert((t_e + s_e + b_e).len() + m_e.len() <= total.len());
    }
    execute_commands_into(
        frame.chrome.modal.as_slice(),
        rs,
        lo,
        to,
        filled_box,
        &mut chrome_history,
    );
    proof {
        lemma_step_concat(
            rs_t0,
            rs_t3,
            *rs,
            h_t0,
            h_t3,
            chrome_history,
            t_e + s_e + b_e,
            m_e,
        );
        assert(t_e + s_e + b_e + m_e == chrome);
    }
    let chrome_end = crate::arena::snapshot_layers(rs);
    let chrome_stats = chrome_history.stats();
    proof {
        assert(chrome.len() <= usize::MAX);
        lemma_stats_eq(chrome_history, chrome_stats, chrome);
        lemma_section_delta(rs_c0, *rs, chrome);
        lemma_arena_step_concat(*old(rs), rs_c0, *rs, done_panes, chrome);
        assert(total =~= done_panes + chrome);
    }
    plan.sections.push(
        crate::plan::RenderSection {
            scissor: None,
            content_hash: 0,
            quad_range: crate::plan::QuadRange { start: chrome_start, end: chrome_end },
            skippable: false,
            stats: Some(chrome_stats),
        },
    );
    plan
}

/// Two sorted layer lists that agree on which depths exist agree on the
/// whole depth order.
proof fn lemma_sorted_depths_equal(a: Seq<crate::arena::RenderLayer>, b: Seq<crate::arena::RenderLayer>)
    requires
        forall|i: int, j: int| 0 <= i < j < a.len() ==> a[i].zindex < a[j].zindex,
        forall|i: int, j: int| 0 <= i < j < b.len() ==> b[i].zindex < b[j].zindex,
        forall|z: int|
            crate::arena::find_layer(a, z) >= 0 <==> #[trigger] crate::arena::find_layer(b, z)
                >= 0,
    ensures
        a.len() == b.len(),
        forall|i: int| 0 <= i < a.len() ==> (#[trigger] a[i]).zindex == b[i].zindex,
    decreases a.len() + b.len(),
{
    broadcast use crate::arena::lemma_find_layer;

    if a.len() == 0 {
        if b.len() > 0 {
            assert(crate::arena::find_layer(b, b[0].zindex as int) >= 0);
            assert(crate::arena::find_layer(a, b[0].zindex as int) >= 0);
        }
    } else if b.len() == 0 {
        assert(crate::arena::find_layer(a, a[0].zindex as int) >= 0);
        assert(crate::arena::find_layer(b, a[0].zindex as int) >= 0);
    } else {
        // The heads carry the least depth on each side, and membership
        // agreement forces them equal.
        assert(crate::arena::find_layer(a, a[0].zindex as int) >= 0);
        assert(crate::arena::find_layer(b, a[0].zindex as int) >= 0);
        let ia = crate::arena::find_layer(b, a[0].zindex as int);
        assert(b[ia].zindex == a[0].zindex);
        assert(crate::arena::find_layer(b, b[0].zindex as int) >= 0);
        assert(crate::arena::find_layer(a, b[0].zindex as int) >= 0);
        let ib = crate::arena::find_layer(a, b[0].zindex as int);
        assert(a[ib].zindex == b[0].zindex);
        if ia > 0 {
            assert(b[0].zindex < b[ia].zindex);
        }
        if ib > 0 {
            assert(a[0].zindex < a[ib].zindex);
        }
        assert(a[0].zindex == b[0].zindex);
        assert forall|z: int|
            crate::arena::find_layer(a.skip(1), z) >= 0 <==> #[trigger] crate::arena::find_layer(
                b.skip(1),
                z,
            ) >= 0 by {
            lemma_find_skip(a, z);
            lemma_find_skip(b, z);
        }
        assert forall|i: int, j: int|
            0 <= i < j < a.skip(1).len() implies (#[trigger] a.skip(1)[i]).zindex < (
        #[trigger] a.skip(1)[j]).zindex by {
            assert(a.skip(1)[i] == a[i + 1]);
            assert(a.skip(1)[j] == a[j + 1]);
        }
        assert forall|i: int, j: int|
            0 <= i < j < b.skip(1).len() implies (#[trigger] b.skip(1)[i]).zindex < (
        #[trigger] b.skip(1)[j]).zindex by {
            assert(b.skip(1)[i] == b[i + 1]);
            assert(b.skip(1)[j] == b[j + 1]);
        }
        lemma_sorted_depths_equal(a.skip(1), b.skip(1));
        assert forall|i: int| 0 <= i < a.len() implies (#[trigger] a[i]).zindex == b[i].zindex by {
            if i > 0 {
                assert(a.skip(1)[i - 1] == a[i]);
                assert(b.skip(1)[i - 1] == b[i]);
            }
        }
    }
}

/// In a sorted list, a depth found beyond the head cannot be the head's,
/// so membership in the tail mirrors membership beyond the head.
proof fn lemma_find_skip(a: Seq<crate::arena::RenderLayer>, z: int)
    requires
        a.len() > 0,
        forall|i: int, j: int| 0 <= i < j < a.len() ==> a[i].zindex < a[j].zindex,
    ensures
        crate::arena::find_layer(a.skip(1), z) >= 0 <==> (crate::arena::find_layer(a, z) >= 0 && z
            != a[0].zindex),
{
    broadcast use crate::arena::lemma_find_layer;

    if crate::arena::find_layer(a.skip(1), z) >= 0 {
        let k = crate::arena::find_layer(a.skip(1), z);
        assert(a.skip(1)[k] == a[k + 1]);
        assert(a[k + 1].zindex == z);
        assert(a[0].zindex < a[k + 1].zindex);
    }
    if crate::arena::find_layer(a, z) >= 0 && z != a[0].zindex {
        let k = crate::arena::find_layer(a, z);
        assert(a[k].zindex == z);
        assert(k > 0);
        assert(a.skip(1)[k - 1] == a[k]);
        if crate::arena::find_layer(a.skip(1), z) == -1 {
            assert(a.skip(1)[k - 1].zindex != z);
        }
    }
}

/// Snapshot entries by index: entry `3 i + s` describes slot `s` of
/// layer `i`.
proof fn lemma_snapshots_index(layers: Seq<crate::arena::RenderLayer>, i: int, s: int)
    requires
        0 <= i < layers.len(),
        0 <= s < 3,
    ensures
        crate::arena::spec_snapshots(layers).len() == 3 * layers.len(),
        crate::arena::spec_snapshots(layers)[3 * i + s] == crate::arena::spec_layer_snap(
            layers[i],
            s,
        ),
    decreases layers,
{
    if i == 0 {
        lemma_snapshots_len(layers.skip(1));
    } else {
        lemma_snapshots_index(layers.skip(1), i - 1, s);
        assert(layers.skip(1)[i - 1] == layers[i]);
        let head = seq![
            crate::arena::spec_layer_snap(layers[0], 0),
            crate::arena::spec_layer_snap(layers[0], 1),
            crate::arena::spec_layer_snap(layers[0], 2),
        ];
        let rest = crate::arena::spec_snapshots(layers.skip(1));
        assert(crate::arena::spec_snapshots(layers) == head + rest);
        assert((head + rest)[3 * i + s] == rest[3 * (i - 1) + s]);
    }
}

proof fn lemma_snapshots_len(layers: Seq<crate::arena::RenderLayer>)
    ensures
        crate::arena::spec_snapshots(layers).len() == 3 * layers.len(),
    decreases layers,
{
    if layers.len() > 0 {
        lemma_snapshots_len(layers.skip(1));
    }
}

/// Retrying a pass after an arena overflow is repaired yields the same
/// plan: the snapshots any section records depend only on which depths
/// are live and how many quads each slot holds, never on slot
/// capacities.  Two arenas that agree on live depths and counts, as a
/// grown arena does with the arena of the discarded pass after the
/// frame-start reset, take equal snapshots, and stay in agreement under
/// the same emissions.
pub proof fn lemma_retry_plan_identical(
    a: RenderState,
    b: RenderState,
    ems: Seq<Emission>,
    a2: RenderState,
    b2: RenderState,
)
    requires
        a.wf(),
        b.wf(),
        forall|z: int| #[trigger] a.has_layer(z) <==> b.has_layer(z),
        forall|z: int, s: int| #[trigger] a.count(z, s) == b.count(z, s),
        arena_step(a, a2, ems),
        arena_step(b, b2, ems),
    ensures
        crate::arena::spec_snapshots(a2.layers@) == crate::arena::spec_snapshots(b2.layers@),
        forall|z: int, s: int| #[trigger] a2.count(z, s) == b2.count(z, s),
{
    broadcast use crate::arena::lemma_find_layer;

    assert forall|z: int|
        crate::arena::find_layer(a2.layers@, z) >= 0 <==> #[trigger] crate::arena::find_layer(
            b2.layers@,
            z,
        ) >= 0 by {
        assert(a2.has_layer(z) <==> (a.has_layer(z) || ems_touches(ems, z)));
        assert(b2.has_layer(z) <==> (b.has_layer(z) || ems_touches(ems, z)));
    }
    lemma_sorted_depths_equal(a2.layers@, b2.layers@);
    let la = a2.layers@;
    let lb = b2.layers@;
    lemma_snapshots_len(la);
    lemma_snapshots_len(lb);
    assert forall|t: int|
        0 <= t < crate::arena::spec_snapshots(la).len() implies crate::arena::spec_snapshots(la)[t]
        == crate::arena::spec_snapshots(lb)[t] by {
        let i = t / 3;
        let s = t % 3;
        lemma_snapshots_index(la, i, s);
        lemma_snapshots_index(lb, i, s);
        let z = la[i].zindex;
        assert(lb[i].zindex == z);
        assert forall|j: int| 0 <= j < i implies (#[trigger] la[j]).zindex != z by {
            assert(la[j].zindex < la[i].zindex);
        }
        assert forall|j: int| 0 <= j < i implies (#[trigger] lb[j]).zindex != z by {
            assert(lb[j].zindex < lb[i].zindex);
        }
        crate::arena::lemma_find_layer_at_pub(la, z as int, i);
        crate::arena::lemma_find_layer_at_pub(lb, z as int, i);
        assert(a2.count(z as int, s) == la[i].vb@[s].next_quad);
        assert(b2.count(z as int, s) == lb[i].vb@[s].next_quad);
        assert(crate::arena::spec_layer_snap(la[i], s) == crate::arena::spec_layer_snap(
            lb[i],
            s,
        ));
    }
    assert(crate::arena::spec_snapshots(la) =~= crate::arena::spec_snapshots(lb));
}

} // verus!
