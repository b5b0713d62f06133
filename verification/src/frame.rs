//! One frame's input to the pipeline, as produced by an external frame
//! describer: an ordered background command list, one described pane per
//! visible pane, and the chrome (tab bar, splits, borders, modal).

use vstd::prelude::*;
use crate::command::{CmdView, Rect, RenderCommand, views_of};
use crate::executor::{emissions_of_seq, Emission};
use crate::command::TextureCoords;
use crate::plan::ExecutionStats;

verus! {

/// One visible pane's description for this frame, with the cache fields
/// that let an unchanged pane be skipped next frame.
#[derive(Clone, Debug)]
pub struct PaneFrame {
    pub pane_id: usize,
    pub is_active: bool,
    pub bounds: Rect,
    /// Fingerprint of `commands`; equality is treated as content equality.
    pub command_hash: u64,
    /// Derived from the pane's content fingerprint plus layout and
    /// generation state; computed by the describer.
    pub cache_key: u64,
    pub commands: Vec<RenderCommand>,
    pub last_execution_stats: Option<ExecutionStats>,
    /// How many consecutive frames this pane's description was reused.
    pub skip_streak: u32,
}

/// The non-pane decorations drawn after the panes.
#[derive(Clone, Debug)]
pub struct ChromeFrame {
    pub tab_bar: Vec<RenderCommand>,
    pub splits: Vec<RenderCommand>,
    pub borders: Vec<RenderCommand>,
    pub modal: Vec<RenderCommand>,
}

impl ChromeFrame {
    /// An empty chrome.
    pub fn new() -> (r: Self)
        ensures
            r.tab_bar@.len() == 0,
            r.splits@.len() == 0,
            r.borders@.len() == 0,
            r.modal@.len() == 0,
    {
        ChromeFrame { tab_bar: Vec::new(), splits: Vec::new(), borders: Vec::new(), modal: Vec::new() }
    }
}

/// One frame's full drawing input.
#[derive(Clone, Debug)]
pub struct Frame {
    pub background: Vec<RenderCommand>,
    pub panes: Vec<PaneFrame>,
    pub chrome: ChromeFrame,
}

/// Commands that are well formed and address a sub-buffer that exists.
pub open spec fn cmds_ok(cmds: Seq<RenderCommand>) -> bool {
    forall|i: int|
        0 <= i < cmds.len() ==> (#[trigger] cmds[i])@.wf() && crate::executor::cmd_targets_ok(
            cmds[i]@,
        )
}

impl Frame {
    /// Every command list of the frame is well formed, and every pane's
    /// bounds are.
    pub open spec fn wf(self) -> bool {
        &&& cmds_ok(self.background@)
        &&& forall|p: int|
            0 <= p < self.panes@.len() ==> cmds_ok((#[trigger] self.panes@[p]).commands@)
                && self.panes@[p].bounds.wf()
        &&& cmds_ok(self.chrome.tab_bar@)
        &&& cmds_ok(self.chrome.splits@)
        &&& cmds_ok(self.chrome.borders@)
        &&& cmds_ok(self.chrome.modal@)
    }

    /// What the background section emits.
    pub open spec fn bg_ems(self, lo: i64, to: i64, fb: TextureCoords) -> Seq<Emission> {
        emissions_of_seq(views_of(self.background@), lo, to, fb)
    }

    /// What pane `p`'s section emits.
    pub open spec fn pane_ems(self, p: int, lo: i64, to: i64, fb: TextureCoords) -> Seq<Emission> {
        emissions_of_seq(views_of(self.panes@[p].commands@), lo, to, fb)
    }

    /// What the chrome section emits: tab bar, splits, borders and modal,
    /// in that order.
    pub open spec fn chrome_ems(self, lo: i64, to: i64, fb: TextureCoords) -> Seq<Emission> {
        emissions_of_seq(views_of(self.chrome.tab_bar@), lo, to, fb) + emissions_of_seq(
            views_of(self.chrome.splits@),
            lo,
            to,
            fb,
        ) + emissions_of_seq(views_of(self.chrome.borders@), lo, to, fb) + emissions_of_seq(
            views_of(self.chrome.modal@),
            lo,
            to,
            fb,
        )
    }

    /// What the first `n` panes emit, concatenated.
    pub open spec fn panes_ems_prefix(self, n: int, lo: i64, to: i64, fb: TextureCoords) -> Seq<
        Emission,
    >
        decreases n,
    {
        if n <= 0 {
            Seq::empty()
        } else {
            self.panes_ems_prefix(n - 1, lo, to, fb) + self.pane_ems(n - 1, lo, to, fb)
        }
    }

    /// Everything the frame emits, in section order.
    pub open spec fn frame_ems(self, lo: i64, to: i64, fb: TextureCoords) -> Seq<Emission> {
        self.bg_ems(lo, to, fb) + self.panes_ems_prefix(self.panes@.len() as int, lo, to, fb)
            + self.chrome_ems(lo, to, fb)
    }
}

/// The fingerprint recorded for a pane in the previous frame, if any:
/// the first entry with the pane's id.
pub open spec fn spec_hash_lookup(entries: Seq<(usize, u64)>, pane_id: usize) -> Option<u64>
    decreases entries,
{
    if entries.len() == 0 {
        None
    } else if entries[0].0 == pane_id {
        Some(entries[0].1)
    } else {
        spec_hash_lookup(entries.skip(1), pane_id)
    }
}

/// Looks up a pane's previous-frame fingerprint.
#[verifier::loop_isolation(false)]
pub fn hash_lookup(entries: &Vec<(usize, u64)>, pane_id: usize) -> (r: Option<u64>)
    ensures
        r == spec_hash_lookup(entries@, pane_id),
{
    proof {
        assert(entries@.skip(0) =~= entries@);
    }
    let n = entries.len();
    let mut i: usize = 0;
    while i < n
        invariant
            0 <= i <= n,
            spec_hash_lookup(entries@, pane_id) == spec_hash_lookup(entries@.skip(i as int), pane_id),
        decreases n - i,
    {
        proof {
            assert(entries@.skip(i as int)[0] == entries@[i as int]);
            assert(entries@.skip(i as int).skip(1) =~= entries@.skip(i as int + 1));
        }
        let (id, hash) = entries[i];
        if id == pane_id {
            return Some(hash);
        }
        i = i + 1;
    }
    proof {
        assert(entries@.skip(n as int) =~= Seq::<(usize, u64)>::empty());
    }
    None
}

} // verus!
