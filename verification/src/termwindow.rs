//! The renderer instance: the arena, the per-pane description cache and
//! the aggregate statistics context, with the frame pass that builds a
//! render plan while consulting the continuity store.

use vstd::prelude::*;
use crate::arena::{FrameBuffers, RenderState};
use crate::command::{Rect, RenderCommand, TextureCoords, views_of};
use crate::continuity::{
    frame_has_buffers_for_range, spec_has_buffers_for_range, spec_range_delta, snaps_wf,
    advance_quad_counts_for_range,
};
use crate::executor::{
    arena_room, arena_step, ems_count, emissions_of_seq, lemma_arena_step_concat,
    lemma_ems_count_bounds, lemma_step_empty, lemma_ems_fills_bounds, lemma_overdraw_bounds,
    stats_of, Emission, ExecutionHistory, spec_offset, OFFSET_LIMIT,
};
use crate::frame::{cmds_ok, ChromeFrame, PaneFrame};
use crate::plan::{
    spec_quad_count, CofreeContext, LayerQuadSnapshot, QuadRange, RenderPlan, RenderSection,
    ScissorRect, SectionOutcome,
};

verus! {

/// Whether image attachments may render this frame, possibly downscaled
/// after texture-space pressure.
#[derive(Clone, Copy, Debug, PartialEq, Eq, Structural)]
pub enum AllowImage {
    Yes,
    Scale(usize),
    No,
}

/// One pane's input to a pass: its identity and cache key, plus a fresh
/// description when the caller had to produce one.  A pane whose cache
/// key matches the previous frame's entry may omit the description.
#[derive(Clone, Debug)]
pub struct PaneSubmission {
    pub pane_id: usize,
    pub cache_key: u64,
    pub is_active: bool,
    pub described: Option<DescribedPane>,
}

/// A freshly described pane: bounds, content fingerprint and commands.
#[derive(Clone, Debug)]
pub struct DescribedPane {
    pub bounds: Rect,
    pub command_hash: u64,
    pub commands: Vec<RenderCommand>,
}

/// Why a pass could not run.
#[derive(Clone, Copy, Debug, PartialEq, Eq, Structural)]
pub enum PaintError {
    /// A pane missed the description cache but no description was given.
    MissingDescription { pane_id: usize },
}

/// The previous frame's entry for a pane, if any.
pub open spec fn spec_pane_lookup(frames: Seq<PaneFrame>, pane_id: usize) -> Option<PaneFrame>
    decreases frames,
{
    if frames.len() == 0 {
        None
    } else if frames[0].pane_id == pane_id {
        Some(frames[0])
    } else {
        spec_pane_lookup(frames.skip(1), pane_id)
    }
}

/// Whether a pane's cache key matches its previous-frame entry, so the
/// previous description can be reused without re-describing.
pub open spec fn spec_candidate(prev: Seq<PaneFrame>, sub: PaneSubmission) -> bool {
    match spec_pane_lookup(prev, sub.pane_id) {
        Some(pf) => pf.cache_key == sub.cache_key,
        None => false,
    }
}

/// The bounds the pane's section uses this frame.
pub open spec fn spec_used_bounds(prev: Seq<PaneFrame>, sub: PaneSubmission) -> Rect {
    if spec_candidate(prev, sub) {
        spec_pane_lookup(prev, sub.pane_id)->Some_0.bounds
    } else {
        sub.described->Some_0.bounds
    }
}

/// The content fingerprint the pane's section carries this frame.
pub open spec fn spec_used_hash(prev: Seq<PaneFrame>, sub: PaneSubmission) -> u64 {
    if spec_candidate(prev, sub) {
        spec_pane_lookup(prev, sub.pane_id)->Some_0.command_hash
    } else {
        sub.described->Some_0.command_hash
    }
}

/// The command list the pane's section would execute this frame.
pub open spec fn spec_used_cmds(prev: Seq<PaneFrame>, sub: PaneSubmission) -> Seq<RenderCommand> {
    if spec_candidate(prev, sub) {
        spec_pane_lookup(prev, sub.pane_id)->Some_0.commands@
    } else {
        sub.described->Some_0.commands@
    }
}

/// What the pane's section emits if executed.
pub open spec fn spec_used_ems(
    prev: Seq<PaneFrame>,
    sub: PaneSubmission,
    lo: i64,
    to: i64,
    fb: TextureCoords,
) -> Seq<Emission> {
    emissions_of_seq(views_of(spec_used_cmds(prev, sub)), lo, to, fb)
}

/// The sum of a recorded range's end counts: an upper bound on every
/// quad-count delta it can claim.
pub open spec fn range_end_sum(end: Seq<LayerQuadSnapshot>) -> int
    decreases end,
{
    if end.len() == 0 {
        0
    } else {
        end[0].quad_count + range_end_sum(end.skip(1))
    }
}

/// A slot's lookup in a snapshot list never exceeds the sum of counts.
proof fn lemma_lookup_le_sum(end: Seq<LayerQuadSnapshot>, z: i8, s: usize)
    ensures
        0 <= spec_quad_count(end, z, s) <= range_end_sum(end),
        range_end_sum(end) >= 0,
    decreases end,
{
    if end.len() > 0 {
        lemma_lookup_le_sum(end.skip(1), z, s);
    }
}

/// The budget a pane's section can spend on quad cursors: its emissions
/// if executed, or at most its recorded range's end counts if skipped.
pub open spec fn spec_pane_budget(
    prev: Seq<PaneFrame>,
    store: Option<FrameBuffers>,
    sub: PaneSubmission,
    p: int,
    lo: i64,
    to: i64,
    fb: TextureCoords,
) -> int {
    spec_used_ems(prev, sub, lo, to, fb).len() + match store {
        Some(st) => {
            if 0 <= p + 1 < st.section_ranges@.len() {
                range_end_sum(st.section_ranges@[p + 1].end@)
            } else {
                0
            }
        },
        None => 0,
    }
}

/// The budget of the first `n` panes.
pub open spec fn spec_panes_budget(
    prev: Seq<PaneFrame>,
    store: Option<FrameBuffers>,
    subs: Seq<PaneSubmission>,
    n: int,
    lo: i64,
    to: i64,
    fb: TextureCoords,
) -> int
    decreases n,
{
    if n <= 0 {
        0
    } else {
        spec_panes_budget(prev, store, subs, n - 1, lo, to, fb) + spec_pane_budget(
            prev,
            store,
            subs[n - 1],
            n - 1,
            lo,
            to,
            fb,
        )
    }
}

proof fn lemma_panes_budget_mono(
    prev: Seq<PaneFrame>,
    store: Option<FrameBuffers>,
    subs: Seq<PaneSubmission>,
    i: int,
    j: int,
    lo: i64,
    to: i64,
    fb: TextureCoords,
)
    requires
        0 <= i <= j,
        forall|k: int| 0 <= k < j ==> spec_pane_budget(prev, store, subs[k], k, lo, to, fb) >= 0,
    ensures
        spec_panes_budget(prev, store, subs, i, lo, to, fb) <= spec_panes_budget(
            prev,
            store,
            subs,
            j,
            lo,
            to,
            fb,
        ),
    decreases j - i,
{
    if i < j {
        lemma_panes_budget_mono(prev, store, subs, i, j - 1, lo, to, fb);
    }
}

/// Every pane budget is non-negative.
proof fn lemma_pane_budget_nonneg(
    prev: Seq<PaneFrame>,
    store: Option<FrameBuffers>,
    sub: PaneSubmission,
    p: int,
    lo: i64,
    to: i64,
    fb: TextureCoords,
)
    ensures
        spec_pane_budget(prev, store, sub, p, lo, to, fb) >= 0,
{
    match store {
        Some(st) => {
            if 0 <= p + 1 < st.section_ranges@.len() {
                lemma_lookup_le_sum(st.section_ranges@[p + 1].end@, 0, 0);
            }
        },
        None => {},
    }
}

/// Whole-pass budget: background, every pane's worst case, and chrome.
pub open spec fn spec_paint_budget(
    prev: Seq<PaneFrame>,
    store: Option<FrameBuffers>,
    background: Seq<RenderCommand>,
    subs: Seq<PaneSubmission>,
    chrome: ChromeFrame,
    lo: i64,
    to: i64,
    fb: TextureCoords,
) -> int {
    emissions_of_seq(views_of(background), lo, to, fb).len() + spec_panes_budget(
        prev,
        store,
        subs,
        subs.len() as int,
        lo,
        to,
        fb,
    ) + chrome_ems_of(chrome, lo, to, fb).len()
}

/// What the chrome emits: tab bar, splits, borders and modal, in order.
pub open spec fn chrome_ems_of(chrome: ChromeFrame, lo: i64, to: i64, fb: TextureCoords) -> Seq<
    Emission,
> {
    emissions_of_seq(views_of(chrome.tab_bar@), lo, to, fb) + emissions_of_seq(
        views_of(chrome.splits@),
        lo,
        to,
        fb,
    ) + emissions_of_seq(views_of(chrome.borders@), lo, to, fb) + emissions_of_seq(
        views_of(chrome.modal@),
        lo,
        to,
        fb,
    )
}

/// Ranges recorded in the continuity store are shaped like the arena's
/// own snapshots: sub-buffer indices in range and no slot listed twice.
pub open spec fn store_wf(store: Option<FrameBuffers>) -> bool {
    match store {
        Some(st) => forall|i: int|
            0 <= i < st.section_ranges@.len() ==> snaps_wf(
                (#[trigger] st.section_ranges@[i]).end@,
            ),
        None => true,
    }
}

/// The renderer instance: everything that survives from frame to frame.
#[derive(Debug)]
pub struct TermWindow {
    pub pixel_width: u32,
    pub pixel_height: u32,
    /// The texture-atlas region of the filled-box utility sprite.
    pub filled_box: TextureCoords,
    pub render_state: RenderState,
    pub render_plan: Option<RenderPlan>,
    /// The previous frame's pane entries, one per pane id.
    pub prev_pane_frames: Vec<PaneFrame>,
    /// Aggregate statistics across pane sections of all frames.
    pub chrono: CofreeContext,
    pub num_frames: usize,
    pub allow_images: AllowImage,
    pub shape_generation: usize,
    /// Configuration values the pipeline reads, set by the caller.
    pub settings: crate::observers::RenderSettings,
    /// Font cell geometry, set by the caller.
    pub metrics: crate::observers::RenderMetrics,
}

impl TermWindow {
    pub open spec fn wf(self) -> bool {
        &&& self.render_state.wf()
        &&& self.chrono.wf()
        &&& store_wf(self.render_state.prev_frame_buffers)
        &&& self.filled_box.wf()
    }

    /// A fresh renderer for a viewport.
    pub fn new(pixel_width: u32, pixel_height: u32, filled_box: TextureCoords) -> (r: Self)
        requires
            filled_box.wf(),
        ensures
            r.wf(),
            r.pixel_width == pixel_width,
            r.pixel_height == pixel_height,
            r.filled_box == filled_box,
            r.render_plan is None,
            r.prev_pane_frames@.len() == 0,
            r.render_state.prev_frame_buffers is None,
            r.chrono.sections_processed == 0,
            r.num_frames == 0,
            forall|z: int, s: int| r.render_state.count(z, s) == 0,
    {
        TermWindow {
            pixel_width,
            pixel_height,
            filled_box,
            render_state: RenderState::new(),
            render_plan: None,
            prev_pane_frames: Vec::new(),
            chrono: CofreeContext::new(),
            num_frames: 0,
            allow_images: AllowImage::Yes,
            shape_generation: 0,
            settings: crate::observers::RenderSettings {
                foreground_text_hsb: crate::command::HsbTransform {
                    hue: 0,
                    saturation: 1000,
                    brightness: 1000,
                },
                webgpu_shader_fps: 0,
                max_fps: 60,
            },
            metrics: crate::observers::RenderMetrics { cell_width: 8, cell_height: 16 },
        }
    }
}

/// A cloned command list has the same view as its source.
proof fn lemma_cmds_clone_views(a: Seq<RenderCommand>, b: Seq<RenderCommand>)
    requires
        a.len() == b.len(),
        forall|i: int| #![all_triggers] 0 <= i < a.len() ==> vstd::pervasive::cloned::<
            RenderCommand,
        >(a[i], b[i]),
    ensures
        views_of(a) == views_of(b),
{
    broadcast use crate::command::lemma_views_of_len;

    assert forall|i: int| 0 <= i < a.len() implies views_of(a)[i] == views_of(b)[i] by {
        assert(vstd::pervasive::cloned::<RenderCommand>(a[i], b[i]));
        if a[i] == b[i] {
        } else {
            assert(vstd::pervasive::strictly_cloned(a[i], b[i]));
            assert(call_ensures(RenderCommand::clone, (&a[i],), b[i]));
        }
    }
    assert(views_of(a) =~= views_of(b));
}

/// A pane with neither a reusable cache entry nor a description.
pub open spec fn spec_missing(prev: Seq<PaneFrame>, sub: PaneSubmission) -> bool {
    !spec_candidate(prev, sub) && sub.described is None
}

/// Whether the skip-dependent chain is intact before pane `p`: every
/// earlier pane section was skippable.
pub open spec fn spec_chain_ok(
    prev: Seq<PaneFrame>,
    store: Option<FrameBuffers>,
    subs: Seq<PaneSubmission>,
    p: int,
) -> bool
    decreases p, 0int,
{
    if p <= 0 {
        true
    } else {
        spec_chain_ok(prev, store, subs, p - 1) && spec_skippable(prev, store, subs, p - 1)
    }
}

/// Whether pane `p`'s section is skipped: its cache key matches, every
/// earlier pane section was skippable, and the continuity store still
/// holds valid buffers for its previously recorded range.
pub open spec fn spec_skippable(
    prev: Seq<PaneFrame>,
    store: Option<FrameBuffers>,
    subs: Seq<PaneSubmission>,
    p: int,
) -> bool
    decreases p, 1int,
{
    &&& spec_candidate(prev, subs[p])
    &&& spec_chain_ok(prev, store, subs, p)
    &&& store is Some
    &&& p + 1 < store->Some_0.section_ranges@.len()
    &&& spec_has_buffers_for_range(store->Some_0, store->Some_0.section_ranges@[p + 1])
}

/// What processing one pane section produced.
pub struct PaneSectionOutput {
    pub skippable: bool,
    pub stats: Option<crate::plan::ExecutionStats>,
    pub frame: PaneFrame,
    pub scissor: ScissorRect,
}

/// Processes one pane: decides whether the previous frame's data can be
/// replayed, and either reserves the recorded range or executes the
/// pane's commands, recording the next frame's cache entry.
#[verifier::loop_isolation(false)]
#[verifier::rlimit(60)]
fn run_pane_section(
    rs: &mut RenderState,
    chrono: &mut CofreeContext,
    prev: &Vec<PaneFrame>,
    sub: &PaneSubmission,
    p: usize,
    chain_valid: bool,
    lo: i64,
    to: i64,
    fbx: TextureCoords,
    vw: u32,
    vh: u32,
) -> (out: PaneSectionOutput)
    requires
        old(rs).wf(),
        old(chrono).wf(),
        store_wf(old(rs).prev_frame_buffers),
        !spec_missing(prev@, *sub),
        cmds_ok(spec_used_cmds(prev@, *sub)),
        spec_used_bounds(prev@, *sub).wf(),
        0 <= lo <= OFFSET_LIMIT,
        0 <= to <= OFFSET_LIMIT,
        fbx.wf(),
        p < usize::MAX,
        forall|z: int, s: int|
            #[trigger] old(rs).count(z, s) + spec_pane_budget(
                prev@,
                old(rs).prev_frame_buffers,
                *sub,
                p as int,
                lo,
                to,
                fbx,
            ) <= usize::MAX,
    ensures
        final(rs).wf(),
        final(rs).prev_frame_buffers == old(rs).prev_frame_buffers,
        final(chrono).wf(),
        out.skippable == (spec_candidate(prev@, *sub) && chain_valid && old(
            rs,
        ).prev_frame_buffers is Some && p + 1 < old(
            rs,
        ).prev_frame_buffers->Some_0.section_ranges@.len() && spec_has_buffers_for_range(
            old(rs).prev_frame_buffers->Some_0,
            old(rs).prev_frame_buffers->Some_0.section_ranges@[p as int + 1],
        )),
        out.skippable ==> forall|z: int, s: int|
            #[trigger] final(rs).count(z, s) == old(rs).count(z, s) + if i8::MIN <= z <= i8::MAX
                && 0 <= s < 3 {
                spec_range_delta(
                    old(rs).prev_frame_buffers->Some_0.section_ranges@[p as int + 1].start@,
                    old(rs).prev_frame_buffers->Some_0.section_ranges@[p as int + 1].end@,
                    z as i8,
                    s as usize,
                )
            } else {
                0int
            },
        !out.skippable ==> arena_step(
            *old(rs),
            *final(rs),
            spec_used_ems(prev@, *sub, lo, to, fbx),
        ) && out.stats == Some(stats_of(spec_used_ems(prev@, *sub, lo, to, fbx))),
        out.skippable ==> out.stats is None,
        forall|z: int, s: int|
            #[trigger] final(rs).count(z, s) <= old(rs).count(z, s) + spec_pane_budget(
                prev@,
                old(rs).prev_frame_buffers,
                *sub,
                p as int,
                lo,
                to,
                fbx,
            ),
        out.frame.pane_id == sub.pane_id,
        out.frame.cache_key == sub.cache_key,
        out.frame.bounds == spec_used_bounds(prev@, *sub),
        out.frame.command_hash == spec_used_hash(prev@, *sub),
        views_of(out.frame.commands@) == views_of(spec_used_cmds(prev@, *sub)),
        out.frame.skip_streak == if out.skippable {
            (match spec_pane_lookup(prev@, sub.pane_id) {
                Some(old_pf) => {
                    if old_pf.skip_streak as int + 1 <= u32::MAX {
                        old_pf.skip_streak as int + 1
                    } else {
                        u32::MAX as int
                    }
                },
                None => 1int,
            })
        } else {
            0int
        },
        out.scissor == ScissorRect::spec_from_pane_bounds(spec_used_bounds(prev@, *sub), vw, vh),
        final(chrono).sections_processed == old(chrono).sections_processed + 1,
        final(chrono).prior_outcomes@ == old(chrono).prior_outcomes@.push(
            if out.skippable {
                SectionOutcome::Skipped
            } else {
                SectionOutcome::Executed { stats: out.stats->Some_0 }
            },
        ),
{
    let ghost prev_g = prev@;
    let ghost sub_g = *sub;
    let ghost used = spec_used_ems(prev_g, sub_g, lo, to, fbx);
    let ghost store_g = rs.prev_frame_buffers;
    let prior = pane_lookup(prev, sub.pane_id);
    let candidate = match prior {
        Some(pf) => pf.cache_key == sub.cache_key,
        None => false,
    };
    proof {
        assert(candidate == spec_candidate(prev_g, sub_g));
    }
    // Can the previous frame's GPU data stand in for this pane?
    let mut use_prior_range = false;
    if candidate && chain_valid {
        match &rs.prev_frame_buffers {
            Some(st) => {
                if p + 1 < st.section_ranges.len() {
                    let range = &st.section_ranges[p + 1];
                    if frame_has_buffers_for_range(st, range) {
                        use_prior_range = true;
                    }
                }
            },
            None => {},
        }
    }
    let outcome: SectionOutcome;
    let mut section_stats: Option<crate::plan::ExecutionStats> = None;
    if use_prior_range {
        // Reserve the recorded range without re-executing.
        let range_copy = match &rs.prev_frame_buffers {
            Some(st) => crate::continuity::clone_range(&st.section_ranges[p + 1]),
            None => {
                proof {
                    assert(false);
                }
                QuadRange { start: Vec::new(), end: Vec::new() }
            },
        };
        proof {
            assert(range_copy.end@ == store_g->Some_0.section_ranges@[p as int + 1].end@);
            assert(snaps_wf(range_copy.end@));
            assert forall|z: i8, s: usize|
                s < 3 implies #[trigger] rs.count(z as int, s as int) + spec_range_delta(
                range_copy.start@,
                range_copy.end@,
                z,
                s,
            ) <= usize::MAX by {
                lemma_lookup_le_sum(range_copy.end@, z, s);
                assert(old(rs).count(z as int, s as int) + spec_pane_budget(
                    prev_g,
                    store_g,
                    sub_g,
                    p as int,
                    lo,
                    to,
                    fbx,
                ) <= usize::MAX);
            }
        }
        advance_quad_counts_for_range(rs, &range_copy);
        proof {
            assert forall|z: int, s: int|
                #[trigger] rs.count(z, s) <= old(rs).count(z, s) + spec_pane_budget(
                prev_g,
                store_g,
                sub_g,
                p as int,
                lo,
                to,
                fbx,
            ) by {
                lemma_pane_budget_nonneg(prev_g, store_g, sub_g, p as int, lo, to, fbx);
                if i8::MIN <= z <= i8::MAX && 0 <= s < 3 {
                    lemma_lookup_le_sum(range_copy.end@, z as i8, s as usize);
                    assert(spec_range_delta(range_copy.start@, range_copy.end@, z as i8, s as usize)
                        <= range_end_sum(range_copy.end@));
                    assert(range_end_sum(range_copy.end@) == range_end_sum(
                        store_g->Some_0.section_ranges@[p as int + 1].end@,
                    ));
                    assert(spec_pane_budget(prev_g, store_g, sub_g, p as int, lo, to, fbx)
                        >= range_end_sum(store_g->Some_0.section_ranges@[p as int + 1].end@));
                    assert(rs.count(z, s) == old(rs).count(z, s) + spec_range_delta(
                        range_copy.start@,
                        range_copy.end@,
                        z as i8,
                        s as usize,
                    ));
                }
            }
        }
        outcome = SectionOutcome::Skipped;
    } else {
        // Execute the pane's commands (reused or freshly given).
        proof {
            assert(used.len() <= spec_pane_budget(prev_g, store_g, sub_g, p as int, lo, to, fbx))
                by {
                if store_g is Some && p as int + 1 < store_g->Some_0.section_ranges@.len() {
                    lemma_lookup_le_sum(store_g->Some_0.section_ranges@[p as int + 1].end@, 0, 0);
                }
            }
            assert forall|z: int, s: int| rs.count(z, s) + used.len() <= usize::MAX by {
                assert(old(rs).count(z, s) + spec_pane_budget(
                    prev_g,
                    store_g,
                    sub_g,
                    p as int,
                    lo,
                    to,
                    fbx,
                ) <= usize::MAX);
            }
            assert(old(rs).count(0, 0) >= 0);
            assert(old(rs).count(0, 0) + spec_pane_budget(
                prev_g,
                store_g,
                sub_g,
                p as int,
                lo,
                to,
                fbx,
            ) <= usize::MAX);
            assert(used.len() <= usize::MAX);
        }
        let cmds: &Vec<RenderCommand> = match prior {
            Some(pf) => {
                if candidate {
                    &pf.commands
                } else {
                    match &sub.described {
                        Some(d) => &d.commands,
                        None => {
                            proof {
                                assert(false);
                            }
                            &pf.commands
                        },
                    }
                }
            },
            None => {
                match &sub.described {
                    Some(d) => &d.commands,
                    None => {
                        proof {
                            assert(false);
                        }
                        &sub.described.as_ref().unwrap().commands
                    },
                }
            },
        };
        let history = crate::executor::execute_commands_with_history(
            cmds.as_slice(),
            rs,
            lo,
            to,
            &fbx,
        );
        let st = history.stats();
        proof {
            crate::executor::lemma_stats_eq(history, st, used);
            assert forall|z: int, s: int|
                #[trigger] rs.count(z, s) <= old(rs).count(z, s) + spec_pane_budget(
                prev_g,
                store_g,
                sub_g,
                p as int,
                lo,
                to,
                fbx,
            ) by {
                crate::executor::lemma_ems_count_bounds(used, z, s);
            }
        }
        section_stats = Some(st);
        outcome = SectionOutcome::Executed { stats: st };
    }
    let skippable = use_prior_range;
    // Record this pane's entry for the next frame.
    let (used_bounds, used_hash, new_streak, cmds_copy) = match prior {
        Some(pf) => {
            if candidate {
                let streak = if skippable {
                    pf.skip_streak.saturating_add(1)
                } else {
                    0
                };
                (pf.bounds, pf.command_hash, streak, pf.commands.clone())
            } else {
                match &sub.described {
                    Some(d) => (d.bounds, d.command_hash, 0u32, d.commands.clone()),
                    None => {
                        proof {
                            assert(false);
                        }
                        (pf.bounds, pf.command_hash, 0u32, pf.commands.clone())
                    },
                }
            }
        },
        None => {
            match &sub.described {
                Some(d) => (d.bounds, d.command_hash, 0u32, d.commands.clone()),
                None => {
                    proof {
                        assert(false);
                    }
                    (Rect { x: 0, y: 0, width: 0, height: 0 }, 0u64, 0u32, Vec::new())
                },
            }
        },
    };
    proof {
        lemma_cmds_clone_views(spec_used_cmds(prev_g, sub_g), cmds_copy@);
    }
    chrono.advance(outcome);
    let scissor = ScissorRect::from_pane_bounds(&used_bounds, vw, vh);
    PaneSectionOutput {
        skippable,
        stats: section_stats,
        frame: PaneFrame {
            pane_id: sub.pane_id,
            is_active: sub.is_active,
            bounds: used_bounds,
            command_hash: used_hash,
            cache_key: sub.cache_key,
            commands: cmds_copy,
            last_execution_stats: section_stats,
            skip_streak: new_streak,
        },
        scissor,
    }
}

impl TermWindow {
    /// One frame pass: clears the arena, then builds a render plan from
    /// the background, one section per submitted pane, and the chrome.
    /// A pane whose cache key matches its previous-frame entry reuses
    /// that entry's description; if in addition every earlier pane
    /// section was skippable and the continuity store still holds valid
    /// buffers for the section's previously recorded range, the section
    /// is skipped: its range is reserved without re-execution and the
    /// plan marks it skippable for draw-time replay.  Fails only when a
    /// pane misses the cache and carries no description, in which case
    /// nothing is changed.
    #[verifier::loop_isolation(false)]
    #[verifier::rlimit(100)]
    pub fn paint_pass(
        &mut self,
        background: &Vec<RenderCommand>,
        panes: &Vec<PaneSubmission>,
        chrome: &ChromeFrame,
    ) -> (r: Result<(), PaintError>)
        requires
            old(self).wf(),
            cmds_ok(background@),
            cmds_ok(chrome.tab_bar@),
            cmds_ok(chrome.splits@),
            cmds_ok(chrome.borders@),
            cmds_ok(chrome.modal@),
            forall|p: int|
                0 <= p < panes@.len() ==> {
                    let sub = #[trigger] panes@[p];
                    &&& cmds_ok(
                        spec_used_cmds(old(self).prev_pane_frames@, sub),
                    )
                    &&& spec_used_bounds(old(self).prev_pane_frames@, sub).wf()
                    &&& (sub.described is Some ==> cmds_ok(sub.described->Some_0.commands@)
                        && sub.described->Some_0.bounds.wf())
                },
            spec_paint_budget(
                old(self).prev_pane_frames@,
                old(self).render_state.prev_frame_buffers,
                background@,
                panes@,
                *chrome,
                spec_offset(old(self).pixel_width),
                spec_offset(old(self).pixel_height),
                old(self).filled_box,
            ) <= usize::MAX,
        ensures
            final(self).wf(),
            final(self).pixel_width == old(self).pixel_width,
            final(self).pixel_height == old(self).pixel_height,
            final(self).filled_box == old(self).filled_box,
            final(self).render_state.prev_frame_buffers == old(
                self,
            ).render_state.prev_frame_buffers,
            r is Err ==> *final(self) == *old(self),
            (r is Err <==> exists|p: int|
                0 <= p < panes@.len() && spec_missing(
                    old(self).prev_pane_frames@,
                    #[trigger] panes@[p],
                )),
            r is Ok ==> ({
                let lo = spec_offset(old(self).pixel_width);
                let to = spec_offset(old(self).pixel_height);
                let fb = old(self).filled_box;
                let prev = old(self).prev_pane_frames@;
                let store = old(self).render_state.prev_frame_buffers;
                let n = panes@.len() as int;
                let plan = final(self).render_plan->Some_0;
                let secs = plan.sections@;
                &&& final(self).render_plan is Some
                &&& plan.viewport_width == old(self).pixel_width
                &&& plan.viewport_height == old(self).pixel_height
                &&& secs.len() == n + 2
                &&& forall|i: int|
                    1 <= i < n + 2 ==> (#[trigger] secs[i]).quad_range.start@ == secs[i
                        - 1].quad_range.end@
                &&& secs[0].scissor is None
                &&& secs[0].content_hash == 0
                &&& !secs[0].skippable
                &&& secs[n + 1].scissor is None
                &&& secs[n + 1].content_hash == 0
                &&& !secs[n + 1].skippable
                &&& forall|z: i8, s: int|
                    0 <= s < 3 ==> #[trigger] spec_quad_count(
                        secs[0].quad_range.start@,
                        z,
                        s as usize,
                    ) == 0
                &&& forall|i: int, z: i8, s: int|
                    0 <= i < n + 2 && 0 <= s < 3 ==> #[trigger] spec_quad_count(
                        (#[trigger] secs[i]).quad_range.end@,
                        z,
                        s as usize,
                    ) >= spec_quad_count(secs[i].quad_range.start@, z, s as usize)
                &&& forall|z: i8, s: int|
                    0 <= s < 3 ==> #[trigger] spec_quad_count(
                        secs[0].quad_range.end@,
                        z,
                        s as usize,
                    ) == ems_count(emissions_of_seq(views_of(background@), lo, to, fb), z as int, s)
                &&& forall|z: i8, s: int|
                    0 <= s < 3 ==> #[trigger] spec_quad_count(
                        secs[n + 1].quad_range.end@,
                        z,
                        s as usize,
                    ) == spec_quad_count(secs[n + 1].quad_range.start@, z, s as usize) + ems_count(
                        chrome_ems_of(*chrome, lo, to, fb),
                        z as int,
                        s,
                    )
                &&& forall|p: int|
                    0 <= p < n ==> {
                        let sub = panes@[p];
                        let sec = #[trigger] secs[p + 1];
                        &&& sec.scissor == Some(
                            ScissorRect::spec_from_pane_bounds(
                                spec_used_bounds(prev, sub),
                                old(self).pixel_width,
                                old(self).pixel_height,
                            ),
                        )
                        &&& sec.content_hash == spec_used_hash(prev, sub)
                        &&& sec.skippable == spec_skippable(prev, store, panes@, p)
                        &&& (sec.skippable ==> sec.stats is None && forall|z: i8, s: usize|
                            s < 3 ==> #[trigger] spec_range_delta(
                                sec.quad_range.start@,
                                sec.quad_range.end@,
                                z,
                                s,
                            ) == spec_range_delta(
                                store->Some_0.section_ranges@[p + 1].start@,
                                store->Some_0.section_ranges@[p + 1].end@,
                                z,
                                s,
                            ))
                        &&& (!sec.skippable ==> sec.stats == Some(
                            stats_of(spec_used_ems(prev, sub, lo, to, fb)),
                        ) && forall|z: i8, s: int|
                            0 <= s < 3 ==> #[trigger] spec_quad_count(
                                sec.quad_range.end@,
                                z,
                                s as usize,
                            ) == spec_quad_count(sec.quad_range.start@, z, s as usize) + ems_count(
                                spec_used_ems(prev, sub, lo, to, fb),
                                z as int,
                                s,
                            ))
                    }
                &&& final(self).prev_pane_frames@.len() == n
                &&& forall|p: int|
                    0 <= p < n ==> {
                        let sub = panes@[p];
                        let pf = #[trigger] final(self).prev_pane_frames@[p];
                        &&& pf.pane_id == sub.pane_id
                        &&& pf.cache_key == sub.cache_key
                        &&& pf.bounds == spec_used_bounds(prev, sub)
                        &&& pf.command_hash == spec_used_hash(prev, sub)
                        &&& views_of(pf.commands@) == views_of(spec_used_cmds(prev, sub))
                        &&& pf.skip_streak == if secs[p + 1].skippable {
                            (match spec_pane_lookup(prev, sub.pane_id) {
                                Some(old_pf) => {
                                    if old_pf.skip_streak as int + 1 <= u32::MAX {
                                        old_pf.skip_streak as int + 1
                                    } else {
                                        u32::MAX as int
                                    }
                                },
                                None => 1int,
                            })
                        } else {
                            0int
                        }
                    }
                &&& forall|z: int, s: int|
                    #[trigger] final(self).render_state.count(z, s) <= spec_paint_budget(
                        prev,
                        store,
                        background@,
                        panes@,
                        *chrome,
                        lo,
                        to,
                        fb,
                    )
                &&& final(self).chrono.sections_processed == old(self).chrono.sections_processed
                    + n
                &&& final(self).chrono.prior_outcomes@.len() == old(
                    self,
                ).chrono.prior_outcomes@.len() + n
                &&& forall|p: int|
                    0 <= p < n ==> ((#[trigger] final(self).chrono.prior_outcomes@[old(
                        self,
                    ).chrono.prior_outcomes@.len() + p]) is Skipped <==> secs[p + 1].skippable)
            }),
    {
        let ghost prev_ghost = self.prev_pane_frames@;
        let pane_count = panes.len();
        // Refuse the pass before touching anything if a pane can be
        // neither reused nor described.
        let mut v: usize = 0;
        while v < pane_count
            invariant
                pane_count == panes@.len(),
                0 <= v <= pane_count,
                forall|q: int| 0 <= q < v ==> !spec_missing(prev_ghost, #[trigger] panes@[q]),
            decreases pane_count - v,
        {
            let sub = &panes[v];
            let prior = pane_lookup(&self.prev_pane_frames, sub.pane_id);
            let candidate = match prior {
                Some(pf) => pf.cache_key == sub.cache_key,
                None => false,
            };
            if !candidate && sub.described.is_none() {
                return Err(PaintError::MissingDescription { pane_id: sub.pane_id });
            }
            v = v + 1;
        }

        let lo = (self.pixel_width / 2) as i64;
        let to = (self.pixel_height / 2) as i64;
        let fbx = self.filled_box;
        let ghost store_ghost = self.render_state.prev_frame_buffers;

        // Take the previous pane entries out; the new map replaces them.
        let mut prev: Vec<PaneFrame> = Vec::new();
        core::mem::swap(&mut prev, &mut self.prev_pane_frames);

        self.render_state.clear_quad_allocation();
        self.render_plan = None;
        let ghost rs0: RenderState = self.render_state;
        let ghost bg = emissions_of_seq(views_of(background@), lo, to, fbx);
        let ghost chrome_e = chrome_ems_of(*chrome, lo, to, fbx);
        let ghost total_budget = spec_paint_budget(
            prev_ghost,
            store_ghost,
            background@,
            panes@,
            *chrome,
            lo,
            to,
            fbx,
        );
        proof {
            lemma_panes_budget_nonneg_all(prev_ghost, store_ghost, panes@, lo, to, fbx);
            lemma_panes_budget_mono(
                prev_ghost,
                store_ghost,
                panes@,
                0,
                pane_count as int,
                lo,
                to,
                fbx,
            );
            assert(bg.len() + spec_panes_budget(
                prev_ghost,
                store_ghost,
                panes@,
                pane_count as int,
                lo,
                to,
                fbx,
            ) + chrome_e.len() == total_budget);
            assert forall|z: int, s: int| rs0.count(z, s) + bg.len() <= usize::MAX by {
                assert(rs0.count(z, s) == 0);
            }
        }
        let mut plan = RenderPlan::new(self.pixel_width, self.pixel_height);

        // Background section, always executed fresh.
        let bg_start = crate::arena::snapshot_layers(&self.render_state);
        crate::executor::execute_commands(
            background.as_slice(),
            &mut self.render_state,
            lo,
            to,
            &fbx,
        );
        let bg_end = crate::arena::snapshot_layers(&self.render_state);
        proof {
            crate::executor::lemma_section_delta(rs0, self.render_state, bg);
            assert forall|z: i8, s: int|
                0 <= s < 3 implies #[trigger] spec_quad_count(bg_start@, z, s as usize) == 0 by {
                crate::arena::lemma_snapshot_count(rs0.layers@, z, s as usize);
                assert((s as usize) as int == s);
                assert(rs0.count(z as int, s) == 0);
            }
            assert forall|z: i8, s: int|
                0 <= s < 3 implies #[trigger] spec_quad_count(bg_end@, z, s as usize) == ems_count(
                bg,
                z as int,
                s,
            ) by {
                crate::arena::lemma_snapshot_count(rs0.layers@, z, s as usize);
                crate::arena::lemma_snapshot_count(self.render_state.layers@, z, s as usize);
                assert((s as usize) as int == s);
                assert(rs0.count(z as int, s) == 0);
            }
            assert forall|z: i8, s: int|
                0 <= s < 3 implies #[trigger] spec_quad_count(bg_end@, z, s as usize)
                >= spec_quad_count(bg_start@, z, s as usize) by {
                crate::arena::lemma_snapshot_count(rs0.layers@, z, s as usize);
                crate::arena::lemma_snapshot_count(self.render_state.layers@, z, s as usize);
                lemma_ems_count_bounds(bg, z as int, s);
                assert((s as usize) as int == s);
            }
            assert forall|z: int, s: int|
                #[trigger] self.render_state.count(z, s) <= bg.len() + spec_panes_budget(
                prev_ghost,
                store_ghost,
                panes@,
                0,
                lo,
                to,
                fbx,
            ) by {
                lemma_ems_count_bounds(bg, z, s);
                assert(rs0.count(z, s) == 0);
            }
        }
        plan.sections.push(
            RenderSection {
                scissor: None,
                content_hash: 0,
                quad_range: QuadRange { start: bg_start, end: bg_end },
                skippable: false,
                stats: None,
            },
        );

        // Pane sections, consulting the description cache and the
        // continuity store.
        let mut new_frames: Vec<PaneFrame> = Vec::new();
        let mut last_end = crate::arena::snapshot_layers(&self.render_state);
        let ghost chrono0 = self.chrono;
        let mut p: usize = 0;
        let mut chain_valid = true;
        proof {
            assert(0 <= lo <= OFFSET_LIMIT && 0 <= to <= OFFSET_LIMIT);
        }
        #[verifier::loop_isolation(true)]
        while p < pane_count
            invariant
                pane_count == panes@.len(),
                0 <= p <= pane_count,
                lo == spec_offset(old(self).pixel_width),
                to == spec_offset(old(self).pixel_height),
                0 <= lo <= OFFSET_LIMIT,
                0 <= to <= OFFSET_LIMIT,
                fbx == old(self).filled_box,
                fbx.wf(),
                prev_ghost == old(self).prev_pane_frames@,
                store_ghost == old(self).render_state.prev_frame_buffers,
                bg == emissions_of_seq(views_of(background@), lo, to, fbx),
                chrome_e == chrome_ems_of(*chrome, lo, to, fbx),
                total_budget == spec_paint_budget(
                    prev_ghost,
                    store_ghost,
                    background@,
                    panes@,
                    *chrome,
                    lo,
                    to,
                    fbx,
                ),
                total_budget <= usize::MAX,
                forall|q: int| 0 <= q < pane_count ==> !spec_missing(prev_ghost, #[trigger] panes@[q]),
                forall|q: int|
                    0 <= q < pane_count ==> {
                        let subq = #[trigger] panes@[q];
                        &&& cmds_ok(spec_used_cmds(prev_ghost, subq))
                        &&& spec_used_bounds(prev_ghost, subq).wf()
                    },
                chrono0.wf(),
                chrono0.prior_outcomes@.len() == chrono0.sections_processed,
                self.wf(),
                self.pixel_width == old(self).pixel_width,
                self.pixel_height == old(self).pixel_height,
                self.filled_box == old(self).filled_box,
                self.render_state.prev_frame_buffers == store_ghost,
                prev@ == prev_ghost,
                plan.sections@.len() == p + 1,
                plan.viewport_width == old(self).pixel_width,
                plan.viewport_height == old(self).pixel_height,
                new_frames@.len() == p,
                last_end@ == crate::arena::spec_snapshots(self.render_state.layers@),
                last_end@ == plan.sections@[p as int].quad_range.end@,
                forall|i: int|
                    1 <= i < p + 1 ==> (#[trigger] plan.sections@[i]).quad_range.start@
                        == plan.sections@[i - 1].quad_range.end@,
                plan.sections@[0].scissor is None,
                plan.sections@[0].content_hash == 0,
                !plan.sections@[0].skippable,
                plan.sections@[0].stats is None,
                forall|z: i8, s: int|
                    0 <= s < 3 ==> #[trigger] spec_quad_count(
                        plan.sections@[0].quad_range.start@,
                        z,
                        s as usize,
                    ) == 0,
                forall|z: i8, s: int|
                    0 <= s < 3 ==> #[trigger] spec_quad_count(
                        plan.sections@[0].quad_range.end@,
                        z,
                        s as usize,
                    ) == ems_count(bg, z as int, s),
                forall|i: int, z: i8, s: int|
                    0 <= i < p + 1 && 0 <= s < 3 ==> #[trigger] spec_quad_count(
                        (#[trigger] plan.sections@[i]).quad_range.end@,
                        z,
                        s as usize,
                    ) >= spec_quad_count(plan.sections@[i].quad_range.start@, z, s as usize),
                chain_valid == spec_chain_ok(prev_ghost, store_ghost, panes@, p as int),
                forall|z: int, s: int|
                    #[trigger] self.render_state.count(z, s) <= bg.len() + spec_panes_budget(
                        prev_ghost,
                        store_ghost,
                        panes@,
                        p as int,
                        lo,
                        to,
                        fbx,
                    ),
                forall|q: int|
                    0 <= q < p ==> {
                        let sub = panes@[q];
                        let sec = #[trigger] plan.sections@[q + 1];
                        &&& sec.scissor == Some(
                            ScissorRect::spec_from_pane_bounds(
                                spec_used_bounds(prev_ghost, sub),
                                old(self).pixel_width,
                                old(self).pixel_height,
                            ),
                        )
                        &&& sec.content_hash == spec_used_hash(prev_ghost, sub)
                        &&& sec.skippable == spec_skippable(prev_ghost, store_ghost, panes@, q)
                        &&& (sec.skippable ==> sec.stats is None && forall|z: i8, s: usize|
                            s < 3 ==> #[trigger] spec_range_delta(
                                sec.quad_range.start@,
                                sec.quad_range.end@,
                                z,
                                s,
                            ) == spec_range_delta(
                                store_ghost->Some_0.section_ranges@[q + 1].start@,
                                store_ghost->Some_0.section_ranges@[q + 1].end@,
                                z,
                                s,
                            ))
                        &&& (!sec.skippable ==> sec.stats == Some(
                            stats_of(spec_used_ems(prev_ghost, sub, lo, to, fbx)),
                        ) && forall|z: i8, s: int|
                            0 <= s < 3 ==> #[trigger] spec_quad_count(
                                sec.quad_range.end@,
                                z,
                                s as usize,
                            ) == spec_quad_count(sec.quad_range.start@, z, s as usize) + ems_count(
                                spec_used_ems(prev_ghost, sub, lo, to, fbx),
                                z as int,
                                s,
                            ))
                    },
                forall|q: int|
                    0 <= q < p ==> {
                        let sub = panes@[q];
                        let pf = #[trigger] new_frames@[q];
                        &&& pf.pane_id == sub.pane_id
                        &&& pf.cache_key == sub.cache_key
                        &&& pf.bounds == spec_used_bounds(prev_ghost, sub)
                        &&& pf.command_hash == spec_used_hash(prev_ghost, sub)
                        &&& views_of(pf.commands@) == views_of(spec_used_cmds(prev_ghost, sub))
                        &&& pf.skip_streak == if plan.sections@[q + 1].skippable {
                            (match spec_pane_lookup(prev_ghost, sub.pane_id) {
                                Some(old_pf) => {
                                    if old_pf.skip_streak as int + 1 <= u32::MAX {
                                        old_pf.skip_streak as int + 1
                                    } else {
                                        u32::MAX as int
                                    }
                                },
                                None => 1int,
                            })
                        } else {
                            0int
                        }
                    },
                self.chrono.sections_processed == chrono0.sections_processed + p,
                self.chrono.prior_outcomes@.len() == chrono0.prior_outcomes@.len() + p,
                forall|q: int|
                    0 <= q < p ==> ((#[trigger] self.chrono.prior_outcomes@[
                        chrono0.prior_outcomes@.len() + q]) is Skipped <==> plan.sections@[q
                        + 1].skippable),
            decreases pane_count - p,
        {
            let sub = &panes[p];
            let ghost sub_g = panes@[p as int];
            let ghost used = spec_used_ems(prev_ghost, sub_g, lo, to, fbx);
            proof {
                assert(!spec_missing(prev_ghost, sub_g));
                lemma_pane_budget_nonneg(prev_ghost, store_ghost, sub_g, p as int, lo, to, fbx);
                lemma_panes_budget_nonneg_all(prev_ghost, store_ghost, panes@, lo, to, fbx);
                lemma_panes_budget_mono(
                    prev_ghost,
                    store_ghost,
                    panes@,
                    p as int + 1,
                    pane_count as int,
                    lo,
                    to,
                    fbx,
                );
                assert forall|z: int, s: int|
                    #[trigger] self.render_state.count(z, s) + spec_pane_budget(
                    prev_ghost,
                    store_ghost,
                    sub_g,
                    p as int,
                    lo,
                    to,
                    fbx,
                ) <= usize::MAX by {
                    assert(bg.len() + spec_panes_budget(
                        prev_ghost,
                        store_ghost,
                        panes@,
                        p as int + 1,
                        lo,
                        to,
                        fbx,
                    ) <= total_budget);
                }
            }
            let pane_start = last_end;
            let ghost rs_mid: RenderState = self.render_state;
            let out = run_pane_section(
                &mut self.render_state,
                &mut self.chrono,
                &prev,
                sub,
                p,
                chain_valid,
                lo,
                to,
                fbx,
                self.pixel_width,
                self.pixel_height,
            );
            let pane_end = crate::arena::snapshot_layers(&self.render_state);
            let skippable = out.skippable;
            let used_hash = out.frame.command_hash;
            new_frames.push(out.frame);
            let ghost pane_end_g = pane_end@;
            proof {
                assert forall|z: i8, s: int|
                    0 <= s < 3 implies #[trigger] spec_quad_count(pane_end_g, z, s as usize)
                    >= spec_quad_count(pane_start@, z, s as usize) by {
                    crate::arena::lemma_snapshot_count(rs_mid.layers@, z, s as usize);
                    crate::arena::lemma_snapshot_count(self.render_state.layers@, z, s as usize);
                    assert((s as usize) as int == s);
                    assert(spec_quad_count(pane_end_g, z, s as usize) == self.render_state.count(
                        z as int,
                        s,
                    ));
                    assert(spec_quad_count(pane_start@, z, s as usize) == rs_mid.count(
                        z as int,
                        s,
                    ));
                    if !skippable {
                        lemma_ems_count_bounds(used, z as int, s);
                    } else {
                        assert(self.render_state.count(z as int, s) >= rs_mid.count(z as int, s));
                    }
                }
                if skippable {
                    assert forall|z: i8, s: usize|
                        s < 3 implies #[trigger] spec_range_delta(pane_start@, pane_end_g, z, s)
                        == spec_range_delta(
                        store_ghost->Some_0.section_ranges@[p as int + 1].start@,
                        store_ghost->Some_0.section_ranges@[p as int + 1].end@,
                        z,
                        s,
                    ) by {
                        crate::arena::lemma_snapshot_count(rs_mid.layers@, z, s);
                        crate::arena::lemma_snapshot_count(self.render_state.layers@, z, s);
                        lemma_lookup_le_sum(
                            store_ghost->Some_0.section_ranges@[p as int + 1].end@,
                            z,
                            s,
                        );
                        assert(self.render_state.count(z as int, s as int) == rs_mid.count(
                            z as int,
                            s as int,
                        ) + spec_range_delta(
                            store_ghost->Some_0.section_ranges@[p as int + 1].start@,
                            store_ghost->Some_0.section_ranges@[p as int + 1].end@,
                            (z as int) as i8,
                            (s as int) as usize,
                        ));
                    }
                } else {
                    crate::executor::lemma_section_delta(rs_mid, self.render_state, used);
                    assert forall|z: i8, s: int|
                        0 <= s < 3 implies #[trigger] spec_quad_count(pane_end_g, z, s as usize)
                        == spec_quad_count(pane_start@, z, s as usize) + ems_count(
                        used,
                        z as int,
                        s,
                    ) by {
                        assert((s as usize) as int == s);
                    }
                }
            }
            plan.sections.push(
                RenderSection {
                    scissor: Some(out.scissor),
                    content_hash: used_hash,
                    quad_range: QuadRange { start: pane_start, end: pane_end },
                    skippable,
                    stats: out.stats,
                },
            );
            proof {
                assert(skippable == spec_skippable(prev_ghost, store_ghost, panes@, p as int));
            }
            if !skippable {
                chain_valid = false;
            }
            proof {
                assert(chain_valid == spec_chain_ok(prev_ghost, store_ghost, panes@, p as int + 1));
            }
            last_end = crate::arena::snapshot_layers(&self.render_state);
            p = p + 1;
        }

        // Chrome section, always executed fresh.
        let chrome_start = last_end;
        let ghost rs_c0: RenderState = self.render_state;
        proof {
            assert forall|z: int, s: int|
                self.render_state.count(z, s) + chrome_e.len() <= usize::MAX by {
                assert(self.render_state.count(z, s) <= bg.len() + spec_panes_budget(
                    prev_ghost,
                    store_ghost,
                    panes@,
                    pane_count as int,
                    lo,
                    to,
                    fbx,
                ));
            }
        }
        execute_chrome_lists(chrome, &mut self.render_state, lo, to, &fbx);
        let chrome_end = crate::arena::snapshot_layers(&self.render_state);
        proof {
            assert forall|z: i8, s: int|
                0 <= s < 3 implies #[trigger] spec_quad_count(chrome_end@, z, s as usize)
                == spec_quad_count(chrome_start@, z, s as usize) + ems_count(
                chrome_e,
                z as int,
                s,
            ) by {
                crate::arena::lemma_snapshot_count(rs_c0.layers@, z, s as usize);
                crate::arena::lemma_snapshot_count(self.render_state.layers@, z, s as usize);
                assert((s as usize) as int == s);
                assert(spec_quad_count(chrome_end@, z, s as usize) == self.render_state.count(
                    z as int,
                    s,
                ));
                assert(spec_quad_count(chrome_start@, z, s as usize) == rs_c0.count(z as int, s));
                assert(self.render_state.count(z as int, s) == rs_c0.count(z as int, s)
                    + ems_count(chrome_e, z as int, s));
            }
            assert forall|z: i8, s: int|
                0 <= s < 3 implies #[trigger] spec_quad_count(chrome_end@, z, s as usize)
                >= spec_quad_count(chrome_start@, z, s as usize) by {
                crate::arena::lemma_snapshot_count(rs_c0.layers@, z, s as usize);
                crate::arena::lemma_snapshot_count(self.render_state.layers@, z, s as usize);
                lemma_ems_count_bounds(chrome_e, z as int, s);
                assert((s as usize) as int == s);
                assert(spec_quad_count(chrome_end@, z, s as usize) == self.render_state.count(
                    z as int,
                    s,
                ));
                assert(spec_quad_count(chrome_start@, z, s as usize) == rs_c0.count(z as int, s));
            }
        }
        plan.sections.push(
            RenderSection {
                scissor: None,
                content_hash: 0,
                quad_range: QuadRange { start: chrome_start, end: chrome_end },
                skippable: false,
                stats: None,
            },
        );
        proof {
            assert forall|z: int, s: int|
                #[trigger] self.render_state.count(z, s) <= total_budget by {
                lemma_ems_count_bounds(chrome_e, z, s);
                assert(rs_c0.count(z, s) <= bg.len() + spec_panes_budget(
                    prev_ghost,
                    store_ghost,
                    panes@,
                    pane_count as int,
                    lo,
                    to,
                    fbx,
                ));
            }
        }

        self.render_plan = Some(plan);
        self.prev_pane_frames = new_frames;
        Ok(())
    }
}

/// Budgets are non-negative for every pane.
proof fn lemma_panes_budget_nonneg_all(
    prev: Seq<PaneFrame>,
    store: Option<FrameBuffers>,
    subs: Seq<PaneSubmission>,
    lo: i64,
    to: i64,
    fb: TextureCoords,
)
    ensures
        forall|k: int|
            0 <= k < subs.len() ==> #[trigger] spec_pane_budget(prev, store, subs[k], k, lo, to, fb)
                >= 0,
{
    assert forall|k: int|
        0 <= k < subs.len() implies #[trigger] spec_pane_budget(prev, store, subs[k], k, lo, to, fb)
        >= 0 by {
        lemma_pane_budget_nonneg(prev, store, subs[k], k, lo, to, fb);
    }
}

/// Executes the four chrome command lists in order.
fn execute_chrome_lists(
    chrome: &ChromeFrame,
    rs: &mut RenderState,
    lo: i64,
    to: i64,
    fbx: &TextureCoords,
)
    requires
        old(rs).wf(),
        cmds_ok(chrome.tab_bar@),
        cmds_ok(chrome.splits@),
        cmds_ok(chrome.borders@),
        cmds_ok(chrome.modal@),
        0 <= lo <= OFFSET_LIMIT,
        0 <= to <= OFFSET_LIMIT,
        fbx.wf(),
        arena_room(*old(rs), chrome_ems_of(*chrome, lo, to, *fbx).len() as int),
    ensures
        arena_step(*old(rs), *final(rs), chrome_ems_of(*chrome, lo, to, *fbx)),
{
    let ghost fb = *fbx;
    let ghost t_e = emissions_of_seq(views_of(chrome.tab_bar@), lo, to, fb);
    let ghost s_e = emissions_of_seq(views_of(chrome.splits@), lo, to, fb);
    let ghost b_e = emissions_of_seq(views_of(chrome.borders@), lo, to, fb);
    let ghost m_e = emissions_of_seq(views_of(chrome.modal@), lo, to, fb);
    let ghost chrome_e = chrome_ems_of(*chrome, lo, to, fb);
    proof {
        assert(chrome_e == t_e + s_e + b_e + m_e);
        assert(chrome_e.len() == t_e.len() + s_e.len() + b_e.len() + m_e.len());
    }
    let mut scratch = ExecutionHistory::new();
    proof {
        assert(scratch.seen() =~= Set::<crate::executor::PosKey>::empty());
        lemma_ems_fills_bounds(t_e);
        lemma_overdraw_bounds(Set::empty(), t_e);
        assert(old(rs).count(0, 0) + chrome_e.len() <= usize::MAX);
        assert(old(rs).count(0, 0) >= 0);
        assert(chrome_e.len() <= usize::MAX);
    }
    let ghost rs_t0: RenderState = *rs;
    crate::executor::execute_commands_into(chrome.tab_bar.as_slice(), rs, lo, to, fbx, &mut scratch);
    let mut scratch2 = ExecutionHistory::new();
    proof {
        assert(scratch2.seen() =~= Set::<crate::executor::PosKey>::empty());
        assert forall|z: int, s: int| rs.count(z, s) + s_e.len() <= usize::MAX by {
            lemma_ems_count_bounds(t_e, z, s);
            assert(old(rs).count(z, s) + chrome_e.len() <= usize::MAX);
        }
        assert(old(rs).count(0, 0) + chrome_e.len() <= usize::MAX);
        assert(old(rs).count(0, 0) >= 0);
        assert(s_e.len() <= usize::MAX);
    }
    let ghost rs_t1: RenderState = *rs;
    crate::executor::execute_commands_into(chrome.splits.as_slice(), rs, lo, to, fbx, &mut scratch2);
    proof {
        lemma_arena_step_concat(rs_t0, rs_t1, *rs, t_e, s_e);
    }
    let mut scratch3 = ExecutionHistory::new();
    proof {
        assert(scratch3.seen() =~= Set::<crate::executor::PosKey>::empty());
        assert forall|z: int, s: int| rs.count(z, s) + b_e.len() <= usize::MAX by {
            lemma_ems_count_bounds(t_e + s_e, z, s);
            assert(old(rs).count(z, s) + chrome_e.len() <= usize::MAX);
            assert((t_e + s_e).len() + b_e.len() <= chrome_e.len());
        }
        assert(old(rs).count(0, 0) + chrome_e.len() <= usize::MAX);
        assert(old(rs).count(0, 0) >= 0);
        assert(b_e.len() <= usize::MAX);
    }
    let ghost rs_t2: RenderState = *rs;
    crate::executor::execute_commands_into(
        chrome.borders.as_slice(),
        rs,
        lo,
        to,
        fbx,
        &mut scratch3,
    );
    proof {
        lemma_arena_step_concat(rs_t0, rs_t2, *rs, t_e + s_e, b_e);
    }
    let mut scratch4 = ExecutionHistory::new();
    proof {
        assert(scratch4.seen() =~= Set::<crate::executor::PosKey>::empty());
        assert forall|z: int, s: int| rs.count(z, s) + m_e.len() <= usize::MAX by {
            lemma_ems_count_bounds(t_e + s_e + b_e, z, s);
            assert(old(rs).count(z, s) + chrome_e.len() <= usize::MAX);
            assert((t_e + s_e + b_e).len() + m_e.len() <= chrome_e.len());
        }
        assert(old(rs).count(0, 0) + chrome_e.len() <= usize::MAX);
        assert(old(rs).count(0, 0) >= 0);
        assert(m_e.len() <= usize::MAX);
    }
    let ghost rs_t3: RenderState = *rs;
    crate::executor::execute_commands_into(chrome.modal.as_slice(), rs, lo, to, fbx, &mut scratch4);
    proof {
        lemma_arena_step_concat(rs_t0, rs_t3, *rs, t_e + s_e + b_e, m_e);
        assert(t_e + s_e + b_e + m_e == chrome_e);
    }
}

/// Looks up a pane's previous-frame entry.
#[verifier::loop_isolation(false)]
pub fn pane_lookup(frames: &Vec<PaneFrame>, pane_id: usize) -> (r: Option<&PaneFrame>)
    ensures
        r is Some <==> spec_pane_lookup(frames@, pane_id) is Some,
        r is Some ==> *r->Some_0 == spec_pane_lookup(frames@, pane_id)->Some_0,
{
    proof {
        assert(frames@.skip(0) =~= frames@);
    }
    let n = frames.len();
    let mut i: usize = 0;
    while i < n
        invariant
            0 <= i <= n,
            n == frames@.len(),
            spec_pane_lookup(frames@, pane_id) == spec_pane_lookup(frames@.skip(i as int), pane_id),
        decreases n - i,
    {
        proof {
            assert(frames@.skip(i as int)[0] == frames@[i as int]);
            assert(frames@.skip(i as int).skip(1) =~= frames@.skip(i as int + 1));
        }
        let f = &frames[i];
        if f.pane_id == pane_id {
            return Some(f);
        }
        i = i + 1;
    }
    proof {
        assert(frames@.skip(n as int) =~= Seq::<PaneFrame>::empty());
    }
    None
}

/// With pairwise-distinct pane ids, the previous-frame lookup for pane
/// `p`'s id lands on entry `p`.
proof fn lemma_lookup_by_position(frames: Seq<PaneFrame>, id: usize, p: int)
    requires
        0 <= p < frames.len(),
        frames[p].pane_id == id,
        forall|q: int| 0 <= q < p ==> (#[trigger] frames[q]).pane_id != id,
    ensures
        spec_pane_lookup(frames, id) == Some(frames[p]),
    decreases p,
{
    if p > 0 {
        assert forall|q: int| 0 <= q < p - 1 implies (#[trigger] frames.skip(1)[q]).pane_id
            != id by {
            assert(frames.skip(1)[q] == frames[q + 1]);
        }
        assert(frames.skip(1)[p - 1] == frames[p]);
        lemma_lookup_by_position(frames.skip(1), id, p - 1);
    }
}

/// Command-list well-formedness depends only on the views.
proof fn lemma_cmds_ok_views(a: Seq<RenderCommand>, b: Seq<RenderCommand>)
    requires
        views_of(a) == views_of(b),
        cmds_ok(a),
    ensures
        cmds_ok(b),
{
    broadcast use crate::command::lemma_views_of_len;

    assert forall|i: int| 0 <= i < b.len() implies (#[trigger] b[i])@.wf()
        && crate::executor::cmd_targets_ok(b[i]@) by {
        assert(views_of(a)[i] == a[i]@);
        assert(views_of(b)[i] == b[i]@);
    }
}

/// No two submissions name the same pane.
pub open spec fn spec_distinct_panes(subs: Seq<PaneSubmission>) -> bool {
    forall|p: int, q: int|
        0 <= p < q < subs.len() ==> (#[trigger] subs[p]).pane_id != (#[trigger] subs[q]).pane_id
}

/// Whether a retry pass's cache describes the same panes as a reference
/// cache: reusable bounds, fingerprints and command content all agree,
/// and every submitted pane is reusable or described.
pub open spec fn spec_entries_stable(
    reference: Seq<PaneFrame>,
    current: Seq<PaneFrame>,
    subs: Seq<PaneSubmission>,
) -> bool {
    forall|p: int|
        0 <= p < subs.len() ==> {
            let sub = #[trigger] subs[p];
            &&& spec_used_bounds(current, sub) == spec_used_bounds(reference, sub)
            &&& spec_used_hash(current, sub) == spec_used_hash(reference, sub)
            &&& views_of(spec_used_cmds(current, sub)) == views_of(spec_used_cmds(reference, sub))
            &&& !spec_missing(current, sub)
        }
}

/// The plan one frame pass builds, as `paint_pass` guarantees it against
/// the pane cache `prev` the pass consulted: section layout, chained and
/// non-decreasing snapshots, and per pane the scissor, fingerprint, skip
/// decision and statistics.
pub open spec fn spec_retry_plan_shape(
    plan: RenderPlan,
    prev: Seq<PaneFrame>,
    store: Option<FrameBuffers>,
    background: Seq<RenderCommand>,
    subs: Seq<PaneSubmission>,
    chrome: ChromeFrame,
    w: u32,
    h: u32,
    lo: i64,
    to: i64,
    fb: TextureCoords,
) -> bool {
    let n = subs.len() as int;
    let secs = plan.sections@;
    &&& plan.viewport_width == w
    &&& plan.viewport_height == h
    &&& secs.len() == n + 2
    &&& forall|i: int|
        1 <= i < n + 2 ==> (#[trigger] secs[i]).quad_range.start@ == secs[i - 1].quad_range.end@
    &&& secs[0].scissor is None
    &&& secs[0].content_hash == 0
    &&& !secs[0].skippable
    &&& secs[n + 1].scissor is None
    &&& secs[n + 1].content_hash == 0
    &&& !secs[n + 1].skippable
    &&& forall|z: i8, s: int|
        0 <= s < 3 ==> #[trigger] spec_quad_count(secs[0].quad_range.start@, z, s as usize) == 0
    &&& forall|i: int, z: i8, s: int|
        0 <= i < n + 2 && 0 <= s < 3 ==> #[trigger] spec_quad_count(
            (#[trigger] secs[i]).quad_range.end@,
            z,
            s as usize,
        ) >= spec_quad_count(secs[i].quad_range.start@, z, s as usize)
    &&& forall|z: i8, s: int|
        0 <= s < 3 ==> #[trigger] spec_quad_count(secs[0].quad_range.end@, z, s as usize)
            == ems_count(emissions_of_seq(views_of(background), lo, to, fb), z as int, s)
    &&& forall|z: i8, s: int|
        0 <= s < 3 ==> #[trigger] spec_quad_count(secs[n + 1].quad_range.end@, z, s as usize)
            == spec_quad_count(secs[n + 1].quad_range.start@, z, s as usize) + ems_count(
            chrome_ems_of(chrome, lo, to, fb),
            z as int,
            s,
        )
    &&& forall|p: int|
        0 <= p < n ==> {
            let sub = subs[p];
            let sec = #[trigger] secs[p + 1];
            &&& sec.scissor == Some(
                ScissorRect::spec_from_pane_bounds(spec_used_bounds(prev, sub), w, h),
            )
            &&& sec.content_hash == spec_used_hash(prev, sub)
            &&& sec.skippable == spec_skippable(prev, store, subs, p)
            &&& (sec.skippable ==> sec.stats is None && forall|z: i8, s: usize|
                s < 3 ==> #[trigger] spec_range_delta(
                    sec.quad_range.start@,
                    sec.quad_range.end@,
                    z,
                    s,
                ) == spec_range_delta(
                    store->Some_0.section_ranges@[p + 1].start@,
                    store->Some_0.section_ranges@[p + 1].end@,
                    z,
                    s,
                ))
            &&& (!sec.skippable ==> sec.stats == Some(
                stats_of(spec_used_ems(prev, sub, lo, to, fb)),
            ))
        }
}

impl TermWindow {
    /// Runs frame passes until one fits the arena, growing overflowing
    /// slots between attempts and discarding each overflowing pass's
    /// plan, for at most `max_attempts` passes.  Returns `Ok(true)` when
    /// the last pass overflowed no slot, `Ok(false)` when the attempts
    /// were exhausted first, and the pass's own error — with nothing
    /// changed — when a pane could be neither reused nor described.
    #[verifier::loop_isolation(false)]
    #[verifier::rlimit(60)]
    pub fn paint_with_retry(
        &mut self,
        background: &Vec<RenderCommand>,
        panes: &Vec<PaneSubmission>,
        chrome: &ChromeFrame,
        max_attempts: usize,
    ) -> (r: Result<bool, PaintError>)
        requires
            old(self).wf(),
            max_attempts >= 1,
            cmds_ok(background@),
            cmds_ok(chrome.tab_bar@),
            cmds_ok(chrome.splits@),
            cmds_ok(chrome.borders@),
            cmds_ok(chrome.modal@),
            spec_distinct_panes(panes@),
            forall|p: int|
                0 <= p < panes@.len() ==> {
                    let sub = #[trigger] panes@[p];
                    &&& cmds_ok(spec_used_cmds(old(self).prev_pane_frames@, sub))
                    &&& spec_used_bounds(old(self).prev_pane_frames@, sub).wf()
                    &&& (sub.described is Some ==> cmds_ok(sub.described->Some_0.commands@)
                        && sub.described->Some_0.bounds.wf())
                },
            spec_paint_budget(
                old(self).prev_pane_frames@,
                old(self).render_state.prev_frame_buffers,
                background@,
                panes@,
                *chrome,
                spec_offset(old(self).pixel_width),
                spec_offset(old(self).pixel_height),
                old(self).filled_box,
            ) + crate::arena::QUAD_ALLOCATION_TILE as int <= usize::MAX,
        ensures
            final(self).wf(),
            final(self).pixel_width == old(self).pixel_width,
            final(self).pixel_height == old(self).pixel_height,
            final(self).filled_box == old(self).filled_box,
            r is Err ==> *final(self) == *old(self),
            (r is Err <==> exists|p: int|
                0 <= p < panes@.len() && spec_missing(
                    old(self).prev_pane_frames@,
                    #[trigger] panes@[p],
                )),
            final(self).render_state.prev_frame_buffers == old(
                self,
            ).render_state.prev_frame_buffers,
            r == Ok::<bool, PaintError>(true) ==> final(self).render_plan is Some
                && forall|i: int, s: int|
                0 <= i < final(self).render_state.layers@.len() && 0 <= s < 3 ==> (
                #[trigger] final(self).render_state.layers@[i].vb@[s]).next_quad
                    <= final(self).render_state.layers@[i].vb@[s].capacity,
            r == Ok::<bool, PaintError>(true) ==> ({
                let lo = spec_offset(old(self).pixel_width);
                let to = spec_offset(old(self).pixel_height);
                let fb = old(self).filled_box;
                let prev0 = old(self).prev_pane_frames@;
                let store0 = old(self).render_state.prev_frame_buffers;
                // The winning pass ran against a cache that describes the
                // same content as the original one; a retried pass may
                // upgrade a changed pane to reusable, because the failed
                // attempt refreshed its entry.
                exists|pl: Seq<PaneFrame>|
                    #[trigger] spec_entries_stable(prev0, pl, panes@) && spec_retry_plan_shape(
                        final(self).render_plan->Some_0,
                        pl,
                        store0,
                        background@,
                        panes@,
                        *chrome,
                        old(self).pixel_width,
                        old(self).pixel_height,
                        lo,
                        to,
                        fb,
                    )
            }),
            r == Ok::<bool, PaintError>(true) ==> final(self).prev_pane_frames@.len()
                == panes@.len() && forall|p: int|
                0 <= p < panes@.len() ==> {
                    let sub = panes@[p];
                    let pf = #[trigger] final(self).prev_pane_frames@[p];
                    &&& pf.pane_id == sub.pane_id
                    &&& pf.cache_key == sub.cache_key
                    &&& pf.bounds == spec_used_bounds(old(self).prev_pane_frames@, sub)
                    &&& pf.command_hash == spec_used_hash(old(self).prev_pane_frames@, sub)
                    &&& views_of(pf.commands@) == views_of(
                        spec_used_cmds(old(self).prev_pane_frames@, sub),
                    )
                },
    {
        let lo = (self.pixel_width / 2) as i64;
        let to = (self.pixel_height / 2) as i64;
        let ghost fbx = self.filled_box;
        let ghost store0 = self.render_state.prev_frame_buffers;
        let ghost prev0 = self.prev_pane_frames@;
        let ghost budget0 = spec_paint_budget(
            prev0,
            store0,
            background@,
            panes@,
            *chrome,
            lo,
            to,
            fbx,
        );
        let mut attempt: usize = 0;
        while attempt < max_attempts
            invariant
                0 <= attempt <= max_attempts,
                self.wf(),
                self.pixel_width == old(self).pixel_width,
                self.pixel_height == old(self).pixel_height,
                self.filled_box == old(self).filled_box,
                self.render_state.prev_frame_buffers == store0,
                attempt == 0 ==> *self == *old(self),
                attempt > 0 ==> (forall|p: int|
                    0 <= p < panes@.len() ==> !spec_missing(
                        self.prev_pane_frames@,
                        #[trigger] panes@[p],
                    )) && !(exists|p: int|
                    0 <= p < panes@.len() && spec_missing(prev0, #[trigger] panes@[p])),
                forall|p: int|
                    0 <= p < panes@.len() ==> {
                        let sub = #[trigger] panes@[p];
                        &&& cmds_ok(spec_used_cmds(self.prev_pane_frames@, sub))
                        &&& spec_used_bounds(self.prev_pane_frames@, sub).wf()
                        &&& spec_used_ems(self.prev_pane_frames@, sub, lo, to, fbx)
                            == spec_used_ems(prev0, sub, lo, to, fbx)
                        &&& spec_used_bounds(self.prev_pane_frames@, sub) == spec_used_bounds(
                            prev0,
                            sub,
                        )
                        &&& spec_used_hash(self.prev_pane_frames@, sub) == spec_used_hash(
                            prev0,
                            sub,
                        )
                        &&& views_of(spec_used_cmds(self.prev_pane_frames@, sub)) == views_of(
                            spec_used_cmds(prev0, sub),
                        )
                    },
                spec_paint_budget(
                    self.prev_pane_frames@,
                    store0,
                    background@,
                    panes@,
                    *chrome,
                    lo,
                    to,
                    fbx,
                ) == budget0,
            decreases max_attempts - attempt,
        {
            let ghost prev_before = self.prev_pane_frames@;
            match self.paint_pass(background, panes, chrome) {
                Ok(()) => {},
                Err(e) => {
                    proof {
                        if attempt > 0 {
                            assert(false);
                        }
                    }
                    return Err(e);
                },
            }
            proof {
                lemma_retry_stable(prev_before, self.prev_pane_frames@, panes@, store0, lo, to, fbx);
            }
            let ghost rs_after: RenderState = self.render_state;
            proof {
                assert forall|i: int, s: int|
                    0 <= i < self.render_state.layers@.len() && 0 <= s < 3 implies (
                #[trigger] self.render_state.layers@[i].vb@[s]).next_quad <= usize::MAX
                    - crate::arena::QUAD_ALLOCATION_TILE by {
                    let z = self.render_state.layers@[i].zindex;
                    assert forall|j: int| 0 <= j < i implies (
                    #[trigger] self.render_state.layers@[j]).zindex != z by {
                        assert(self.render_state.layers@[j].zindex
                            < self.render_state.layers@[i].zindex);
                    }
                    crate::arena::lemma_find_layer_at_pub(self.render_state.layers@, z as int, i);
                    assert(self.render_state.count(z as int, s)
                        == self.render_state.layers@[i].vb@[s].next_quad);
                }
            }
            let grew = self.render_state.allocated_more_quads();
            if !grew {
                proof {
                    assert forall|i: int, s: int|
                        0 <= i < self.render_state.layers@.len() && 0 <= s < 3 implies (
                    #[trigger] self.render_state.layers@[i].vb@[s]).next_quad
                        <= self.render_state.layers@[i].vb@[s].capacity by {
                        if rs_after.layers@[i].vb@[s].next_quad
                            > rs_after.layers@[i].vb@[s].capacity {
                            assert(exists|i2: int, s2: int|
                                0 <= i2 < rs_after.layers@.len() && 0 <= s2 < 3 && (
                                #[trigger] rs_after.layers@[i2].vb@[s2]).next_quad
                                    > rs_after.layers@[i2].vb@[s2].capacity);
                        }
                    }
                    // The winning pass's plan has the shape paint_pass
                    // states, against the cache it consulted.
                    assert(spec_entries_stable(prev0, prev_before, panes@));
                    assert(spec_retry_plan_shape(
                        self.render_plan->Some_0,
                        prev_before,
                        store0,
                        background@,
                        panes@,
                        *chrome,
                        old(self).pixel_width,
                        old(self).pixel_height,
                        lo,
                        to,
                        fbx,
                    ));
                }
                return Ok(true);
            }
            attempt = attempt + 1;
        }
        Ok(false)
    }
}

/// One pass keeps everything the next retry relies on: the new pane
/// entries describe the same content, so the worst-case budget and the
/// per-pane preconditions are unchanged.
proof fn lemma_retry_stable(
    prev_before: Seq<PaneFrame>,
    prev_after: Seq<PaneFrame>,
    subs: Seq<PaneSubmission>,
    store: Option<FrameBuffers>,
    lo: i64,
    to: i64,
    fbx: TextureCoords,
)
    requires
        spec_distinct_panes(subs),
        prev_after.len() == subs.len(),
        forall|p: int|
            0 <= p < subs.len() ==> {
                let sub = subs[p];
                let pf = #[trigger] prev_after[p];
                &&& pf.pane_id == sub.pane_id
                &&& pf.cache_key == sub.cache_key
                &&& pf.bounds == spec_used_bounds(prev_before, sub)
                &&& pf.command_hash == spec_used_hash(prev_before, sub)
                &&& views_of(pf.commands@) == views_of(spec_used_cmds(prev_before, sub))
            },
        forall|p: int|
            0 <= p < subs.len() ==> cmds_ok(
                spec_used_cmds(prev_before, #[trigger] subs[p]),
            ) && spec_used_bounds(prev_before, subs[p]).wf(),
    ensures
        forall|p: int|
            0 <= p < subs.len() ==> {
                let sub = #[trigger] subs[p];
                &&& spec_candidate(prev_after, sub)
                &&& !spec_missing(prev_after, sub)
                &&& cmds_ok(spec_used_cmds(prev_after, sub))
                &&& spec_used_bounds(prev_after, sub).wf()
                &&& spec_used_bounds(prev_after, sub) == spec_used_bounds(prev_before, sub)
                &&& spec_used_hash(prev_after, sub) == spec_used_hash(prev_before, sub)
                &&& views_of(spec_used_cmds(prev_after, sub)) == views_of(
                    spec_used_cmds(prev_before, sub),
                )
                &&& spec_used_ems(prev_after, sub, lo, to, fbx) == spec_used_ems(
                    prev_before,
                    sub,
                    lo,
                    to,
                    fbx,
                )
            },
        forall|p: int|
            0 <= p < subs.len() ==> spec_pane_budget(prev_after, store, #[trigger] subs[p], p, lo, to, fbx)
                == spec_pane_budget(prev_before, store, subs[p], p, lo, to, fbx),
        forall|n: int|
            0 <= n <= subs.len() ==> #[trigger] spec_panes_budget(
                prev_after,
                store,
                subs,
                n,
                lo,
                to,
                fbx,
            ) == spec_panes_budget(prev_before, store, subs, n, lo, to, fbx),
{
    assert forall|p: int| 0 <= p < subs.len() implies {
        let sub = #[trigger] subs[p];
        &&& spec_candidate(prev_after, sub)
        &&& !spec_missing(prev_after, sub)
        &&& cmds_ok(spec_used_cmds(prev_after, sub))
        &&& spec_used_bounds(prev_after, sub).wf()
        &&& spec_used_bounds(prev_after, sub) == spec_used_bounds(prev_before, sub)
        &&& spec_used_hash(prev_after, sub) == spec_used_hash(prev_before, sub)
        &&& views_of(spec_used_cmds(prev_after, sub)) == views_of(
            spec_used_cmds(prev_before, sub),
        )
        &&& spec_used_ems(prev_after, sub, lo, to, fbx) == spec_used_ems(prev_before, sub, lo, to, fbx)
    } by {
        let sub = subs[p];
        assert forall|q: int| 0 <= q < p implies (#[trigger] prev_after[q]).pane_id
            != sub.pane_id by {
            assert(prev_after[q].pane_id == subs[q].pane_id);
        }
        lemma_lookup_by_position(prev_after, sub.pane_id, p);
        assert(spec_used_cmds(prev_after, sub) == prev_after[p].commands@);
        lemma_cmds_ok_views(spec_used_cmds(prev_before, sub), prev_after[p].commands@);
    }
    assert forall|p: int|
        0 <= p < subs.len() implies spec_pane_budget(prev_after, store, #[trigger] subs[p], p, lo, to, fbx)
        == spec_pane_budget(prev_before, store, subs[p], p, lo, to, fbx) by {}
    assert forall|n: int|
        0 <= n <= subs.len() implies #[trigger] spec_panes_budget(
        prev_after,
        store,
        subs,
        n,
        lo,
        to,
        fbx,
    ) == spec_panes_budget(prev_before, store, subs, n, lo, to, fbx) by {
        lemma_panes_budget_same(prev_before, prev_after, store, subs, n, lo, to, fbx);
    }
}

/// Prefix budgets agree when every pane's budget agrees.
proof fn lemma_panes_budget_same(
    a: Seq<PaneFrame>,
    b: Seq<PaneFrame>,
    store: Option<FrameBuffers>,
    subs: Seq<PaneSubmission>,
    n: int,
    lo: i64,
    to: i64,
    fbx: TextureCoords,
)
    requires
        n <= subs.len(),
        forall|p: int|
            0 <= p < subs.len() ==> spec_used_ems(b, #[trigger] subs[p], lo, to, fbx)
                == spec_used_ems(a, subs[p], lo, to, fbx),
    ensures
        spec_panes_budget(b, store, subs, n, lo, to, fbx) == spec_panes_budget(
            a,
            store,
            subs,
            n,
            lo,
            to,
            fbx,
        ),
    decreases n,
{
    if n > 0 {
        lemma_panes_budget_same(a, b, store, subs, n - 1, lo, to, fbx);
    }
}

} // verus!
