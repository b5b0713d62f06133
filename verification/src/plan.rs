//! The render plan: ordered sections with scissor rectangles, content
//! fingerprints, quad ranges and skip decisions, plus the aggregate
//! statistics context that observes the section sequence.

use vstd::prelude::*;
use crate::command::{max_int, Rect};

verus! {

/// A rectangular GPU draw constraint, in viewport pixels.
#[derive(Clone, Copy, Debug, PartialEq, Eq, Structural, Hash)]
pub struct ScissorRect {
    pub x: u32,
    pub y: u32,
    pub width: u32,
    pub height: u32,
}

/// Clamps a rectangle edge into `[0, limit]`.
pub open spec fn clamp_to_viewport(v: int, limit: int) -> int {
    if v < 0 {
        0
    } else if v > limit {
        limit
    } else {
        v
    }
}

impl ScissorRect {
    /// What `from_pane_bounds` returns: the origin is only floored at
    /// zero, the far edges are clamped into the viewport, and the size is
    /// the remaining non-negative span — zero whenever the pane lies
    /// outside the viewport.
    pub open spec fn spec_from_pane_bounds(bounds: Rect, vw: u32, vh: u32) -> ScissorRect {
        let x = max_int(bounds.x as int, 0);
        let y = max_int(bounds.y as int, 0);
        let right = clamp_to_viewport(bounds.x + bounds.width, vw as int);
        let bottom = clamp_to_viewport(bounds.y + bounds.height, vh as int);
        ScissorRect {
            x: x as u32,
            y: y as u32,
            width: (if right >= x {
                right - x
            } else {
                0
            }) as u32,
            height: (if bottom >= y {
                bottom - y
            } else {
                0
            }) as u32,
        }
    }

    /// Converts a pane's pixel bounds to the scissor rectangle that clips
    /// its section to the viewport.
    pub fn from_pane_bounds(bounds: &Rect, viewport_width: u32, viewport_height: u32) -> (r:
        ScissorRect)
        requires
            bounds.wf(),
        ensures
            r == Self::spec_from_pane_bounds(*bounds, viewport_width, viewport_height),
    {
        let vw = viewport_width as i64;
        let vh = viewport_height as i64;
        let x = if bounds.x < 0 {
            0
        } else {
            bounds.x
        };
        let y = if bounds.y < 0 {
            0
        } else {
            bounds.y
        };
        let r_edge = bounds.x + bounds.width;
        let right = if r_edge < 0 {
            0
        } else if r_edge > vw {
            vw
        } else {
            r_edge
        };
        let b_edge = bounds.y + bounds.height;
        let bottom = if b_edge < 0 {
            0
        } else if b_edge > vh {
            vh
        } else {
            b_edge
        };
        ScissorRect {
            x: x as u32,
            y: y as u32,
            width: (if right >= x {
                right - x
            } else {
                0
            }) as u32,
            height: (if bottom >= y {
                bottom - y
            } else {
                0
            }) as u32,
        }
    }
}

/// The quad count of one layer slot at a point in time.
#[derive(Clone, Copy, Debug, PartialEq, Eq, Structural, Hash)]
pub struct LayerQuadSnapshot {
    pub zindex: i8,
    pub sub_idx: usize,
    pub quad_count: usize,
}

/// A pair of snapshots bracketing a section's execution; the delta per
/// `(zindex, sub_idx)` gives exactly which quads the section wrote.
#[derive(Clone, Debug)]
pub struct QuadRange {
    pub start: Vec<LayerQuadSnapshot>,
    pub end: Vec<LayerQuadSnapshot>,
}

/// What one section's execution emitted.
#[derive(Clone, Copy, Debug, PartialEq, Eq, Structural, Hash)]
pub struct ExecutionStats {
    pub quads_emitted: usize,
    pub fills_emitted: usize,
    pub draws_emitted: usize,
    pub overdraw_positions: usize,
}

/// How one section was handled.
#[derive(Clone, Copy, Debug, PartialEq, Eq, Structural)]
pub enum SectionOutcome {
    Skipped,
    Executed { stats: ExecutionStats },
}

/// The quad count recorded for `(zindex, sub_idx)` in a snapshot list,
/// taking a missing entry as zero.
pub open spec fn spec_quad_count(snapshots: Seq<LayerQuadSnapshot>, zindex: i8, sub_idx: usize) -> usize
    decreases snapshots,
{
    if snapshots.len() == 0 {
        0
    } else if snapshots[0].zindex == zindex && snapshots[0].sub_idx == sub_idx {
        snapshots[0].quad_count
    } else {
        spec_quad_count(snapshots.skip(1), zindex, sub_idx)
    }
}

/// Looks up the quad count for `(zindex, sub_idx)`; a pair not present in
/// the snapshot list counts zero quads.
pub fn quad_count_for_snapshot(snapshots: &[LayerQuadSnapshot], zindex: i8, sub_idx: usize) -> (r:
    usize)
    ensures
        r == spec_quad_count(snapshots@, zindex, sub_idx),
{
    proof {
        assert(snapshots@.skip(0) =~= snapshots@);
    }
    let n = snapshots.len();
    let mut i: usize = 0;
    while i < n
        invariant
            n == snapshots@.len(),
            0 <= i <= n,
            spec_quad_count(snapshots@, zindex, sub_idx) == spec_quad_count(
                snapshots@.skip(i as int),
                zindex,
                sub_idx,
            ),
        decreases n - i,
    {
        proof {
            assert(snapshots@.skip(i as int)[0] == snapshots@[i as int]);
        }
        let s = snapshots[i];
        if s.zindex == zindex && s.sub_idx == sub_idx {
            return s.quad_count;
        }
        proof {
            assert(snapshots@.skip(i as int).skip(1) =~= snapshots@.skip(i as int + 1));
        }
        i = i + 1;
    }
    proof {
        assert(snapshots@.skip(n as int) =~= Seq::<LayerQuadSnapshot>::empty());
    }
    0
}

/// One logical, independently cacheable region of a frame's draw output.
#[derive(Clone, Debug)]
pub struct RenderSection {
    /// Absent means the full viewport.
    pub scissor: Option<ScissorRect>,
    /// Zero for sections that are never content-cached.
    pub content_hash: u64,
    pub quad_range: QuadRange,
    pub skippable: bool,
    pub stats: Option<ExecutionStats>,
}

/// The ordered section list for one frame, with the viewport it was built
/// for.
#[derive(Debug)]
pub struct RenderPlan {
    pub sections: Vec<RenderSection>,
    pub viewport_width: u32,
    pub viewport_height: u32,
}

/// How many of the first `n` sections carry a scissor rectangle (pane
/// sections do; background and chrome do not).
pub open spec fn spec_pane_sections(sections: Seq<RenderSection>) -> int
    decreases sections,
{
    if sections.len() == 0 {
        0
    } else {
        spec_pane_sections(sections.skip(1)) + if sections[0].scissor is Some {
            1int
        } else {
            0int
        }
    }
}

/// How many sections carry a scissor rectangle and are skippable.
pub open spec fn spec_skippable_pane_sections(sections: Seq<RenderSection>) -> int
    decreases sections,
{
    if sections.len() == 0 {
        0
    } else {
        spec_skippable_pane_sections(sections.skip(1)) + if sections[0].scissor is Some
            && sections[0].skippable {
            1int
        } else {
            0int
        }
    }
}

proof fn lemma_pane_sections_bounds(sections: Seq<RenderSection>)
    ensures
        0 <= spec_skippable_pane_sections(sections) <= spec_pane_sections(sections)
            <= sections.len(),
    decreases sections,
{
    if sections.len() > 0 {
        lemma_pane_sections_bounds(sections.skip(1));
    }
}

impl RenderPlan {
    /// An empty plan for a viewport.
    pub fn new(width: u32, height: u32) -> (r: Self)
        ensures
            r.sections@.len() == 0,
            r.viewport_width == width,
            r.viewport_height == height,
    {
        Self {
            sections: Vec::new(),
            viewport_width: width,
            viewport_height: height,
        }
    }

    /// Counts the pane sections: those bounded by a scissor rectangle.
    pub fn pane_section_count(&self) -> (r: usize)
        ensures
            r == spec_pane_sections(self.sections@),
    {
        proof {
            lemma_pane_sections_bounds(self.sections@);
            assert(self.sections@.skip(0) =~= self.sections@);
        }
        let n = self.sections.len();
        let mut i: usize = 0;
        let mut count: usize = 0;
        while i < n
            invariant
                n == self.sections@.len(),
                0 <= i <= n,
                count == spec_pane_sections(self.sections@) - spec_pane_sections(
                    self.sections@.skip(i as int),
                ),
                count <= i,
            decreases n - i,
        {
            proof {
                lemma_pane_sections_bounds(self.sections@.skip(i as int));
                assert(self.sections@.skip(i as int)[0] == self.sections@[i as int]);
                assert(self.sections@.skip(i as int).skip(1) =~= self.sections@.skip(i as int + 1));
            }
            if self.sections[i].scissor.is_some() {
                count = count + 1;
            }
            i = i + 1;
        }
        proof {
            assert(self.sections@.skip(n as int) =~= Seq::<RenderSection>::empty());
        }
        count
    }

    /// Counts the pane sections marked skippable.
    pub fn skippable_pane_section_count(&self) -> (r: usize)
        ensures
            r == spec_skippable_pane_sections(self.sections@),
    {
        proof {
            lemma_pane_sections_bounds(self.sections@);
            assert(self.sections@.skip(0) =~= self.sections@);
        }
        let n = self.sections.len();
        let mut i: usize = 0;
        let mut count: usize = 0;
        while i < n
            invariant
                n == self.sections@.len(),
                0 <= i <= n,
                count == spec_skippable_pane_sections(self.sections@)
                    - spec_skippable_pane_sections(self.sections@.skip(i as int)),
                count <= i,
            decreases n - i,
        {
            proof {
                lemma_pane_sections_bounds(self.sections@.skip(i as int));
                assert(self.sections@.skip(i as int)[0] == self.sections@[i as int]);
                assert(self.sections@.skip(i as int).skip(1) =~= self.sections@.skip(i as int + 1));
            }
            let s = &self.sections[i];
            if s.scissor.is_some() && s.skippable {
                count = count + 1;
            }
            i = i + 1;
        }
        proof {
            assert(self.sections@.skip(n as int) =~= Seq::<RenderSection>::empty());
        }
        count
    }
}

/// A running context that accumulates, across the section sequence, the
/// totals and the full per-section outcome history.  Purely
/// observational: nothing in the drawing path reads it.
#[derive(Clone, Debug)]
pub struct CofreeContext {
    pub total_quads_emitted: usize,
    pub sections_processed: usize,
    pub sections_skipped: usize,
    pub skip_streak: usize,
    pub prior_outcomes: Vec<SectionOutcome>,
}

impl CofreeContext {
    /// The counters agree with the recorded history.
    pub open spec fn wf(self) -> bool {
        &&& self.sections_processed == self.prior_outcomes@.len()
        &&& self.sections_skipped <= self.sections_processed
        &&& self.skip_streak <= self.sections_processed
    }

    /// A fresh context with nothing observed.
    pub fn new() -> (r: Self)
        ensures
            r.wf(),
            r.total_quads_emitted == 0,
            r.sections_processed == 0,
            r.sections_skipped == 0,
            r.skip_streak == 0,
            r.prior_outcomes@.len() == 0,
    {
        Self {
            total_quads_emitted: 0,
            sections_processed: 0,
            sections_skipped: 0,
            skip_streak: 0,
            prior_outcomes: Vec::new(),
        }
    }

    /// Records one section's outcome: a skip extends the streak, an
    /// execution adds its quads and resets the streak.  The total quad
    /// count saturates at the machine limit.
    pub fn advance(&mut self, outcome: SectionOutcome)
        requires
            old(self).wf(),
        ensures
            final(self).wf(),
            final(self).sections_processed == old(self).sections_processed + 1,
            final(self).prior_outcomes@ == old(self).prior_outcomes@.push(outcome),
            outcome is Skipped ==> {
                &&& final(self).sections_skipped == old(self).sections_skipped + 1
                &&& final(self).skip_streak == old(self).skip_streak + 1
                &&& final(self).total_quads_emitted == old(self).total_quads_emitted
            },
            outcome is Executed ==> {
                &&& final(self).sections_skipped == old(self).sections_skipped
                &&& final(self).skip_streak == 0
                &&& final(self).total_quads_emitted == if old(self).total_quads_emitted
                    + outcome->Executed_stats.quads_emitted <= usize::MAX {
                    old(self).total_quads_emitted + outcome->Executed_stats.quads_emitted
                } else {
                    usize::MAX as int
                }
            },
    {
        self.prior_outcomes.push(outcome);
        let n = self.prior_outcomes.len();
        proof {
            assert(n == old(self).sections_processed + 1);
        }
        match &outcome {
            SectionOutcome::Skipped => {
                self.sections_skipped = self.sections_skipped + 1;
                self.skip_streak = self.skip_streak + 1;
            },
            SectionOutcome::Executed { stats } => {
                self.total_quads_emitted = self.total_quads_emitted.saturating_add(
                    stats.quads_emitted,
                );
                self.skip_streak = 0;
            },
        }
        self.sections_processed = n;
    }
}

/// For any frame's plan, the quad count of every layer slot is
/// non-decreasing across the section sequence: later sections only ever
/// see counts at least as large as earlier ones, because bump allocation
/// only grows until the next frame's reset.
pub proof fn lemma_counts_non_decreasing(
    sections: Seq<RenderSection>,
    i: int,
    j: int,
    z: i8,
    s: usize,
)
    requires
        s < 3,
        0 <= i <= j < sections.len(),
        forall|k: int|
            1 <= k < sections.len() ==> (#[trigger] sections[k]).quad_range.start@ == sections[k
                - 1].quad_range.end@,
        forall|k: int, z2: i8, s2: int|
            0 <= k < sections.len() && 0 <= s2 < 3 ==> #[trigger] spec_quad_count(
                (#[trigger] sections[k]).quad_range.end@,
                z2,
                s2 as usize,
            ) >= spec_quad_count(sections[k].quad_range.start@, z2, s2 as usize),
    ensures
        spec_quad_count(sections[i].quad_range.start@, z, s) <= spec_quad_count(
            sections[j].quad_range.end@,
            z,
            s,
        ),
    decreases j - i,
{
    assert((s as int) < 3);
    assert(spec_quad_count(sections[i].quad_range.end@, z, (s as int) as usize)
        >= spec_quad_count(sections[i].quad_range.start@, z, (s as int) as usize));
    if i < j {
        lemma_counts_non_decreasing(sections, i + 1, j, z, s);
        assert(sections[i + 1].quad_range.start@ == sections[i].quad_range.end@);
    }
}

} // verus!
