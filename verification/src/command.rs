//! Command intermediate representation: a small closed set of drawing
//! instructions forming a tree via batching, with traversal, color
//! rewriting, clipping and content hashing.

use std::collections::hash_map::DefaultHasher;
use std::hash::Hasher;
use vstd::prelude::*;
use vstd::arithmetic::div_mod::{lemma_div_is_ordered, lemma_div_multiples_vanish};
use vstd::arithmetic::mul::lemma_mul_inequality;
use vstd::std_specs::hash::DefaultHasherAdditionalSpecFns;

verus! {

/// Coordinates are whole pixels (or texels, for texture regions).  Keeping
/// every field within this bound lets all of the arithmetic in clipping and
/// texture reprojection stay inside the machine words.
pub const COORD_LIMIT: i64 = 0x4000_0000;

/// An axis-aligned rectangle in pixel space: origin plus size.
#[derive(Clone, Copy, Debug, PartialEq, Eq, Structural, Hash)]
pub struct Rect {
    pub x: i64,
    pub y: i64,
    pub width: i64,
    pub height: i64,
}

pub open spec fn max_int(a: int, b: int) -> int {
    if a >= b {
        a
    } else {
        b
    }
}

pub open spec fn min_int(a: int, b: int) -> int {
    if a <= b {
        a
    } else {
        b
    }
}

impl Rect {
    /// All fields within `COORD_LIMIT`, so sums of any two stay in range.
    pub open spec fn wf(self) -> bool {
        &&& -COORD_LIMIT <= self.x <= COORD_LIMIT
        &&& -COORD_LIMIT <= self.y <= COORD_LIMIT
        &&& -COORD_LIMIT <= self.width <= COORD_LIMIT
        &&& -COORD_LIMIT <= self.height <= COORD_LIMIT
    }

    /// Whether the two rectangles overlap in an area of positive size.
    pub open spec fn spec_intersects(self, other: Rect) -> bool {
        &&& max_int(self.x as int, other.x as int) < min_int(
            self.x + self.width,
            other.x + other.width,
        )
        &&& max_int(self.y as int, other.y as int) < min_int(
            self.y + self.height,
            other.y + other.height,
        )
    }

    /// The largest rectangle contained in both; meaningful only when
    /// `spec_intersects` holds.
    pub open spec fn spec_intersection(self, other: Rect) -> Rect {
        Rect {
            x: max_int(self.x as int, other.x as int) as i64,
            y: max_int(self.y as int, other.y as int) as i64,
            width: (min_int(self.x + self.width, other.x + other.width) - max_int(
                self.x as int,
                other.x as int,
            )) as i64,
            height: (min_int(self.y + self.height, other.y + other.height) - max_int(
                self.y as int,
                other.y as int,
            )) as i64,
        }
    }

    /// Intersects two rectangles, returning `None` when they do not overlap
    /// in an area of positive size.
    pub fn intersection(&self, other: &Rect) -> (r: Option<Rect>)
        requires
            self.wf(),
            other.wf(),
        ensures
            r is Some <==> self.spec_intersects(*other),
            r is Some ==> r->Some_0 == self.spec_intersection(*other) && r->Some_0.wf(),
    {
        let left = if self.x >= other.x {
            self.x
        } else {
            other.x
        };
        let top = if self.y >= other.y {
            self.y
        } else {
            other.y
        };
        let self_right = self.x + self.width;
        let other_right = other.x + other.width;
        let right = if self_right <= other_right {
            self_right
        } else {
            other_right
        };
        let self_bottom = self.y + self.height;
        let other_bottom = other.y + other.height;
        let bottom = if self_bottom <= other_bottom {
            self_bottom
        } else {
            other_bottom
        };
        if left < right && top < bottom {
            Some(
                Rect {
                    x: left,
                    y: top,
                    width: right - left,
                    height: bottom - top,
                },
            )
        } else {
            None
        }
    }
}

/// A color in linear space, with each channel quantized to 16 bits.
#[derive(Clone, Copy, Debug, PartialEq, Eq, Structural, Hash)]
pub struct LinearRgba {
    pub red: u16,
    pub green: u16,
    pub blue: u16,
    pub alpha: u16,
}

/// A hue / saturation / brightness adjustment, in thousandths.
#[derive(Clone, Copy, Debug, PartialEq, Eq, Structural, Hash)]
pub struct HsbTransform {
    pub hue: i32,
    pub saturation: i32,
    pub brightness: i32,
}

/// A region of the glyph texture atlas, in texels.
#[derive(Clone, Copy, Debug, PartialEq, Eq, Structural, Hash)]
pub struct TextureCoords {
    pub left: i64,
    pub top: i64,
    pub right: i64,
    pub bottom: i64,
}

impl TextureCoords {
    /// Texture regions are not flipped and stay within `COORD_LIMIT`.
    pub open spec fn wf(self) -> bool {
        &&& 0 <= self.left <= self.right <= COORD_LIMIT
        &&& 0 <= self.top <= self.bottom <= COORD_LIMIT
    }
}

/// How the shader treats a textured quad's sample.
#[derive(Clone, Copy, Debug, PartialEq, Eq, Structural, Hash)]
pub enum QuadMode {
    Glyph,
    ColorEmoji,
    BackgroundImage,
    SolidColor,
    GrayScale,
}

/// One drawing instruction.  `Batch` makes the commands a tree; commands
/// never reference GPU handles.
#[derive(Debug)]
pub enum RenderCommand {
    Clear { color: LinearRgba },
    FillRect {
        layer: usize,
        zindex: i8,
        rect: Rect,
        color: LinearRgba,
        hsv: Option<HsbTransform>,
    },
    DrawQuad {
        layer: usize,
        zindex: i8,
        position: Rect,
        texture: TextureCoords,
        fg_color: LinearRgba,
        alt_color: Option<(LinearRgba, u16)>,
        hsv: Option<HsbTransform>,
        mode: QuadMode,
    },
    SetClipRect(Option<Rect>),
    BeginPostProcess,
    Batch(Vec<RenderCommand>),
    Nop,
}

/// The mathematical shape of a command tree: identical to `RenderCommand`
/// except that a batch holds a `Seq`, so that specifications can build and
/// take apart trees.
pub enum CmdView {
    Clear { color: LinearRgba },
    FillRect {
        layer: usize,
        zindex: i8,
        rect: Rect,
        color: LinearRgba,
        hsv: Option<HsbTransform>,
    },
    DrawQuad {
        layer: usize,
        zindex: i8,
        position: Rect,
        texture: TextureCoords,
        fg_color: LinearRgba,
        alt_color: Option<(LinearRgba, u16)>,
        hsv: Option<HsbTransform>,
        mode: QuadMode,
    },
    SetClipRect(Option<Rect>),
    BeginPostProcess,
    Batch(Seq<CmdView>),
    Nop,
}

impl View for RenderCommand {
    type V = CmdView;

    open spec fn view(&self) -> CmdView
        decreases self,
    {
        match self {
            RenderCommand::Clear { color } => CmdView::Clear { color: *color },
            RenderCommand::FillRect { layer, zindex, rect, color, hsv } => CmdView::FillRect {
                layer: *layer,
                zindex: *zindex,
                rect: *rect,
                color: *color,
                hsv: *hsv,
            },
            RenderCommand::DrawQuad {
                layer,
                zindex,
                position,
                texture,
                fg_color,
                alt_color,
                hsv,
                mode,
            } => CmdView::DrawQuad {
                layer: *layer,
                zindex: *zindex,
                position: *position,
                texture: *texture,
                fg_color: *fg_color,
                alt_color: *alt_color,
                hsv: *hsv,
                mode: *mode,
            },
            RenderCommand::SetClipRect(r) => CmdView::SetClipRect(*r),
            RenderCommand::BeginPostProcess => CmdView::BeginPostProcess,
            RenderCommand::Batch(cmds) => CmdView::Batch(views_of(cmds@)),
            RenderCommand::Nop => CmdView::Nop,
        }
    }
}

/// The views of every command in a sequence, in order.
pub open spec fn views_of(cmds: Seq<RenderCommand>) -> Seq<CmdView>
    decreases cmds,
{
    if cmds.len() == 0 {
        Seq::empty()
    } else {
        seq![cmds[0]@] + views_of(cmds.skip(1))
    }
}

pub broadcast proof fn lemma_views_of_len(cmds: Seq<RenderCommand>)
    ensures
        (#[trigger] views_of(cmds)).len() == cmds.len(),
        forall|i: int| 0 <= i < cmds.len() ==> views_of(cmds)[i] == cmds[i]@,
    decreases cmds,
{
    if cmds.len() > 0 {
        lemma_views_of_len(cmds.skip(1));
        let head = seq![cmds[0]@];
        let tail = views_of(cmds.skip(1));
        assert(views_of(cmds) == head + tail);
        assert forall|i: int| 0 <= i < cmds.len() implies views_of(cmds)[i] == cmds[i]@ by {
            if i > 0 {
                assert((head + tail)[i] == tail[i - 1]);
                assert(cmds.skip(1)[i - 1] == cmds[i]);
            } else {
                assert((head + tail)[0] == cmds[0]@);
            }
        }
    }
}

impl CmdView {
    /// Geometry fields are bounded; batches are well formed throughout.
    pub open spec fn wf(self) -> bool
        decreases self,
    {
        match self {
            CmdView::FillRect { rect, .. } => rect.wf(),
            CmdView::DrawQuad { position, texture, .. } => position.wf() && texture.wf(),
            CmdView::SetClipRect(r) => match r {
                Some(rect) => rect.wf(),
                None => true,
            },
            CmdView::Batch(cmds) => forall|i: int| 0 <= i < cmds.len() ==> (#[trigger] cmds[i]).wf(),
            _ => true,
        }
    }

    /// What `clip_to_rect` returns: geometry intersected with `clip`,
    /// texture coordinates reprojected onto the clipped sub-rectangle,
    /// non-intersecting draw commands replaced by `Nop`, and batches whose
    /// every child clips away pruned to `Nop`.
    pub open spec fn clip_spec(self, clip: Rect) -> CmdView
        decreases self,
    {
        match self {
            CmdView::FillRect { layer, zindex, rect, color, hsv } => {
                if rect.spec_intersects(clip) {
                    CmdView::FillRect {
                        layer,
                        zindex,
                        rect: rect.spec_intersection(clip),
                        color,
                        hsv,
                    }
                } else {
                    CmdView::Nop
                }
            },
            CmdView::DrawQuad {
                layer,
                zindex,
                position,
                texture,
                fg_color,
                alt_color,
                hsv,
                mode,
            } => {
                if position.spec_intersects(clip) {
                    CmdView::DrawQuad {
                        layer,
                        zindex,
                        position: position.spec_intersection(clip),
                        texture: reproject_spec(position, position.spec_intersection(clip), texture),
                        fg_color,
                        alt_color,
                        hsv,
                        mode,
                    }
                } else {
                    CmdView::Nop
                }
            },
            CmdView::Batch(cmds) => {
                let kept = clip_children_spec(cmds, clip);
                if kept.len() == 0 {
                    CmdView::Nop
                } else {
                    CmdView::Batch(kept)
                }
            },
            other => other,
        }
    }
}

impl CmdView {
    /// A size measure for the tree, used to justify termination of the
    /// executable traversals.
    pub open spec fn height(self) -> nat
        decreases self,
    {
        match self {
            CmdView::Batch(cmds) => 1 + heights_of(cmds),
            _ => 0,
        }
    }
}

/// The summed heights of a sequence of trees, counting one per element.
pub open spec fn heights_of(cmds: Seq<CmdView>) -> nat
    decreases cmds,
{
    if cmds.len() == 0 {
        0
    } else {
        cmds[0].height() + 1 + heights_of(cmds.skip(1))
    }
}

/// Every element of a batch is strictly smaller than the batch itself.
pub broadcast proof fn lemma_height_of_element(cmds: Seq<CmdView>, i: int)
    requires
        0 <= i < cmds.len(),
    ensures
        (#[trigger] cmds[i]).height() < CmdView::Batch(cmds).height(),
    decreases cmds,
{
    if i == 0 {
    } else {
        lemma_height_of_element(cmds.skip(1), i - 1);
        assert(cmds.skip(1)[i - 1] == cmds[i]);
    }
}

/// The children of a clipped batch: each child clipped, `Nop` results
/// dropped.
pub open spec fn clip_children_spec(cmds: Seq<CmdView>, clip: Rect) -> Seq<CmdView>
    decreases cmds,
{
    if cmds.len() == 0 {
        Seq::empty()
    } else {
        let head = cmds[0].clip_spec(clip);
        let rest = clip_children_spec(cmds.skip(1), clip);
        if head is Nop {
            rest
        } else {
            seq![head] + rest
        }
    }
}

proof fn lemma_views_of_push(after: Seq<RenderCommand>, before: Seq<RenderCommand>, c: RenderCommand)
    requires
        after == before.push(c),
    ensures
        views_of(after) =~= views_of(before) + seq![c@],
{
    lemma_views_of_len(after);
    lemma_views_of_len(before);
}

proof fn lemma_clip_children_take_step(cmds: Seq<CmdView>, clip: Rect, i: int)
    requires
        0 <= i < cmds.len(),
    ensures
        clip_children_spec(cmds.take(i + 1), clip) == if cmds[i].clip_spec(clip) is Nop {
            clip_children_spec(cmds.take(i), clip)
        } else {
            clip_children_spec(cmds.take(i), clip) + seq![cmds[i].clip_spec(clip)]
        },
    decreases i,
{
    let a = cmds.take(i + 1);
    let b = cmds.take(i);
    if i == 0 {
        assert(a =~= seq![cmds[0]]);
        assert(b =~= Seq::<CmdView>::empty());
        assert(a.skip(1) =~= Seq::<CmdView>::empty());
        assert(clip_children_spec(a.skip(1), clip) == Seq::<CmdView>::empty());
        assert(clip_children_spec(b, clip) == Seq::<CmdView>::empty());
        if cmds[0].clip_spec(clip) is Nop {
        } else {
            assert(a[0] == cmds[0]);
            assert(clip_children_spec(a, clip) == seq![cmds[0].clip_spec(clip)]
                + Seq::<CmdView>::empty());
            assert(seq![cmds[0].clip_spec(clip)] + Seq::<CmdView>::empty() =~= Seq::<
                CmdView,
            >::empty() + seq![cmds[0].clip_spec(clip)]);
        }
    } else {
        lemma_clip_children_take_step(cmds.skip(1), clip, i - 1);
        assert(a.skip(1) =~= cmds.skip(1).take(i));
        assert(b.skip(1) =~= cmds.skip(1).take(i - 1));
        assert(a[0] == cmds[0] && b[0] == cmds[0]);
        assert(cmds.skip(1)[i - 1] == cmds[i]);
        if cmds[0].clip_spec(clip) is Nop {
        } else {
            if cmds[i].clip_spec(clip) is Nop {
            } else {
                assert(seq![cmds[0].clip_spec(clip)] + (clip_children_spec(
                    cmds.skip(1).take(i - 1),
                    clip,
                ) + seq![cmds[i].clip_spec(clip)]) =~= (seq![cmds[0].clip_spec(clip)]
                    + clip_children_spec(cmds.skip(1).take(i - 1), clip)) + seq![cmds[i].clip_spec(
                    clip,
                )]);
            }
        }
    }
}

/// What the reprojected texture region of a clipped quad is: each clipped
/// edge moved through the position-to-texture linear map, rounded down to
/// whole texels.
pub open spec fn reproject_spec(position: Rect, clipped: Rect, t: TextureCoords) -> TextureCoords {
    let w = position.width as int;
    let h = position.height as int;
    let tw = t.right - t.left;
    let th = t.bottom - t.top;
    let dx0 = clipped.x - position.x;
    let dx1 = dx0 + clipped.width;
    let dy0 = clipped.y - position.y;
    let dy1 = dy0 + clipped.height;
    TextureCoords {
        left: (t.left + dx0 * tw / w) as i64,
        right: (t.left + dx1 * tw / w) as i64,
        top: (t.top + dy0 * th / h) as i64,
        bottom: (t.top + dy1 * th / h) as i64,
    }
}

/// Helper for `reproject`: `d * t / w` on plain machine words.
fn scale_edge(d: u64, t: u64, w: u64) -> (r: u64)
    requires
        0 < w,
        d <= w,
        w <= 2 * COORD_LIMIT as u64,
        t <= COORD_LIMIT as u64,
    ensures
        r == d as int * t as int / w as int,
        r <= t,
{
    proof {
        lemma_mul_inequality(d as int, w as int, t as int);
        lemma_div_is_ordered(d as int * t as int, w as int * t as int, w as int);
        lemma_div_multiples_vanish(t as int, w as int);
        lemma_mul_le_both(d as int, 2 * COORD_LIMIT as int, t as int, COORD_LIMIT as int);
    }
    (d * t) / w
}

proof fn lemma_mul_le_both(a: int, a2: int, b: int, b2: int)
    requires
        0 <= a <= a2,
        0 <= b <= b2,
    ensures
        a * b <= a2 * b2,
{
    lemma_mul_inequality(a, a2, b);
    vstd::arithmetic::mul::lemma_mul_is_commutative(a2, b);
    vstd::arithmetic::mul::lemma_mul_is_commutative(a2, b2);
    lemma_mul_inequality(b, b2, a2);
}

/// Reprojects a quad's texture region onto its clipped position.
fn reproject(position: &Rect, clipped: &Rect, t: &TextureCoords) -> (r: TextureCoords)
    requires
        position.wf(),
        t.wf(),
        clipped.wf(),
        position.x <= clipped.x,
        position.y <= clipped.y,
        0 < clipped.width,
        0 < clipped.height,
        clipped.x + clipped.width <= position.x + position.width,
        clipped.y + clipped.height <= position.y + position.height,
    ensures
        r == reproject_spec(*position, *clipped, *t),
        r.wf(),
{
    let w = position.width as u64;
    let h = position.height as u64;
    let tw = (t.right - t.left) as u64;
    let th = (t.bottom - t.top) as u64;
    let dx0 = (clipped.x - position.x) as u64;
    let dx1 = dx0 + clipped.width as u64;
    let dy0 = (clipped.y - position.y) as u64;
    let dy1 = dy0 + clipped.height as u64;
    let sx0 = scale_edge(dx0, tw, w);
    let sx1 = scale_edge(dx1, tw, w);
    let sy0 = scale_edge(dy0, th, h);
    let sy1 = scale_edge(dy1, th, h);
    proof {
        lemma_mul_inequality(dx0 as int, dx1 as int, tw as int);
        lemma_div_is_ordered(dx0 as int * tw as int, dx1 as int * tw as int, w as int);
        lemma_mul_inequality(dy0 as int, dy1 as int, th as int);
        lemma_div_is_ordered(dy0 as int * th as int, dy1 as int * th as int, h as int);
    }
    TextureCoords {
        left: t.left + sx0 as i64,
        right: t.left + sx1 as i64,
        top: t.top + sy0 as i64,
        bottom: t.top + sy1 as i64,
    }
}

impl RenderCommand {
    /// Clips this command tree against `clip`, per `CmdView::clip_spec`.
    #[verifier::loop_isolation(false)]
    pub fn clip_to_rect(self, clip: &Rect) -> (r: RenderCommand)
        requires
            self@.wf(),
            clip.wf(),
        ensures
            r@ == self@.clip_spec(*clip),
            r@.wf(),
        decreases self@.height(),
    {
        broadcast use lemma_views_of_len;

        let ghost orig = self;
        match self {
            RenderCommand::FillRect { layer, zindex, rect, color, hsv } => {
                match rect.intersection(clip) {
                    Some(clipped) => RenderCommand::FillRect {
                        layer,
                        zindex,
                        rect: clipped,
                        color,
                        hsv,
                    },
                    None => RenderCommand::Nop,
                }
            },
            RenderCommand::DrawQuad {
                layer,
                zindex,
                position,
                texture,
                fg_color,
                alt_color,
                hsv,
                mode,
            } => {
                match position.intersection(clip) {
                    Some(clipped_pos) => {
                        let clipped_texture = reproject(&position, &clipped_pos, &texture);
                        RenderCommand::DrawQuad {
                            layer,
                            zindex,
                            position: clipped_pos,
                            texture: clipped_texture,
                            fg_color,
                            alt_color,
                            hsv,
                            mode,
                        }
                    },
                    None => RenderCommand::Nop,
                }
            },
            RenderCommand::Batch(cmds) => {
                let ghost origv: Vec<RenderCommand> = cmds;
                let ghost origs: Seq<RenderCommand> = cmds@;
                let ghost all = views_of(origs);
                let mut kept: Vec<RenderCommand> = Vec::new();
                let mut i: usize = 0;
                let cmds_len = cmds.len();
                let mut rest = cmds;
                // Consume the children front to back so that each subtree is
                // moved, not copied.
                while i < cmds_len
                    invariant
                        cmds_len == origs.len(),
                        all == views_of(origs),
                        all.len() == origs.len(),
                        forall|j: int| 0 <= j < origs.len() ==> all[j] == #[trigger] origs[j]@,
                        orig == RenderCommand::Batch(origv),
                        origv@ == origs,
                        0 <= i <= cmds_len,
                        rest@ =~= origs.skip(i as int),
                        views_of(kept@) =~= clip_children_spec(all.take(i as int), *clip),
                        forall|j: int| 0 <= j < all.len() ==> (#[trigger] all[j]).wf(),
                        forall|j: int| 0 <= j < kept@.len() ==> (#[trigger] kept@[j]@).wf(),
                        clip.wf(),
                    decreases cmds_len - i,
                {
                    let cmd = rest.remove(0);
                    proof {
                        assert(origs.skip(i as int)[0] == origs[i as int]);
                        assert(cmd == origs[i as int]);
                        lemma_height_of_element(all, i as int);
                        assert(orig@ == CmdView::Batch(all));
                        assert(cmd@.height() < orig@.height());
                    }
                    let clipped = cmd.clip_to_rect(clip);
                    let is_nop = matches!(clipped, RenderCommand::Nop);
                    proof {
                        lemma_clip_children_take_step(all, *clip, i as int);
                        assert(clipped@ == all[i as int].clip_spec(*clip));
                    }
                    if !is_nop {
                        let ghost prev_kept: Seq<RenderCommand> = kept@;
                        kept.push(clipped);
                        proof {
                            lemma_views_of_push(kept@, prev_kept, clipped);
                        }
                    }
                    proof {
                        assert(rest@ =~= origs.skip(i as int + 1));
                    }
                    i = i + 1;
                }
                proof {
                    assert(all.take(cmds_len as int) =~= all);
                }
                if kept.len() == 0 {
                    RenderCommand::Nop
                } else {
                    RenderCommand::Batch(kept)
                }
            },
            other => {
                proof {
                    assert(other@.clip_spec(*clip) == other@);
                }
                other
            },
        }
    }
}

/// Whether `f` may be called on every color that a rewrite of `a` visits.
pub open spec fn map_colors_pre<F: Fn(LinearRgba) -> LinearRgba>(a: CmdView, f: F) -> bool
    decreases a,
{
    match a {
        CmdView::Clear { color } => call_requires(f, (color,)),
        CmdView::FillRect { color, .. } => call_requires(f, (color,)),
        CmdView::DrawQuad { fg_color, alt_color, .. } => {
            &&& call_requires(f, (fg_color,))
            &&& match alt_color {
                Some((c, _)) => call_requires(f, (c,)),
                None => true,
            }
        },
        CmdView::Batch(cmds) => forall|i: int|
            0 <= i < cmds.len() ==> map_colors_pre(#[trigger] cmds[i], f),
        _ => true,
    }
}

/// How a rewritten tree relates to its original: identical structure, with
/// every color-bearing leaf's colors replaced by a possible result of `f`.
pub open spec fn map_colors_rel<F: Fn(LinearRgba) -> LinearRgba>(
    a: CmdView,
    b: CmdView,
    f: F,
) -> bool
    decreases a,
{
    match a {
        CmdView::Clear { color } => match b {
            CmdView::Clear { color: color2 } => call_ensures(f, (color,), color2),
            _ => false,
        },
        CmdView::FillRect { layer, zindex, rect, color, hsv } => match b {
            CmdView::FillRect {
                layer: layer2,
                zindex: zindex2,
                rect: rect2,
                color: color2,
                hsv: hsv2,
            } => {
                &&& layer2 == layer
                &&& zindex2 == zindex
                &&& rect2 == rect
                &&& hsv2 == hsv
                &&& call_ensures(f, (color,), color2)
            },
            _ => false,
        },
        CmdView::DrawQuad { layer, zindex, position, texture, fg_color, alt_color, hsv, mode } => {
            match b {
                CmdView::DrawQuad {
                    layer: layer2,
                    zindex: zindex2,
                    position: position2,
                    texture: texture2,
                    fg_color: fg_color2,
                    alt_color: alt_color2,
                    hsv: hsv2,
                    mode: mode2,
                } => {
                    &&& layer2 == layer
                    &&& zindex2 == zindex
                    &&& position2 == position
                    &&& texture2 == texture
                    &&& hsv2 == hsv
                    &&& mode2 == mode
                    &&& call_ensures(f, (fg_color,), fg_color2)
                    &&& match (alt_color, alt_color2) {
                        (None, None) => true,
                        (Some((c, mix)), Some((c2, mix2))) => mix2 == mix && call_ensures(
                            f,
                            (c,),
                            c2,
                        ),
                        _ => false,
                    }
                },
                _ => false,
            }
        },
        CmdView::Batch(cmds) => match b {
            CmdView::Batch(cmds2) => {
                &&& cmds2.len() == cmds.len()
                &&& forall|i: int|
                    0 <= i < cmds.len() ==> map_colors_rel(#[trigger] cmds[i], cmds2[i], f)
            },
            _ => false,
        },
        other => b == other,
    }
}

impl RenderCommand {
    /// Rewrites every color-bearing leaf with `f`, preserving structure.
    #[verifier::loop_isolation(false)]
    pub fn map_colors<F: Fn(LinearRgba) -> LinearRgba>(self, f: &F) -> (r: RenderCommand)
        requires
            map_colors_pre(self@, *f),
        ensures
            map_colors_rel(self@, r@, *f),
        decreases self@.height(),
    {
        broadcast use lemma_views_of_len;

        let ghost orig = self;
        match self {
            RenderCommand::Clear { color } => RenderCommand::Clear { color: f(color) },
            RenderCommand::FillRect { layer, zindex, rect, color, hsv } => {
                RenderCommand::FillRect {
                    layer,
                    zindex,
                    rect,
                    color: f(color),
                    hsv,
                }
            },
            RenderCommand::DrawQuad {
                layer,
                zindex,
                position,
                texture,
                fg_color,
                alt_color,
                hsv,
                mode,
            } => {
                let new_alt = match alt_color {
                    Some((c, mix)) => Some((f(c), mix)),
                    None => None,
                };
                RenderCommand::DrawQuad {
                    layer,
                    zindex,
                    position,
                    texture,
                    fg_color: f(fg_color),
                    alt_color: new_alt,
                    hsv,
                    mode,
                }
            },
            RenderCommand::Batch(cmds) => {
                let ghost origs: Seq<RenderCommand> = cmds@;
                let ghost all = views_of(origs);
                let mut out: Vec<RenderCommand> = Vec::new();
                let mut i: usize = 0;
                let n = cmds.len();
                let mut rest = cmds;
                while i < n
                    invariant
                        n == origs.len(),
                        0 <= i <= n,
                        rest@ =~= origs.skip(i as int),
                        out@.len() == i,
                        forall|j: int|
                            0 <= j < i ==> map_colors_rel(all[j], (#[trigger] out@[j])@, *f),
                    decreases n - i,
                {
                    let cmd = rest.remove(0);
                    proof {
                        assert(origs.skip(i as int)[0] == origs[i as int]);
                        assert(cmd == origs[i as int]);
                        lemma_height_of_element(all, i as int);
                        assert(orig@ == CmdView::Batch(all));
                        assert(map_colors_pre(cmd@, *f));
                    }
                    let mapped = cmd.map_colors(f);
                    out.push(mapped);
                    i = i + 1;
                }
                let r = RenderCommand::Batch(out);
                proof {
                    lemma_views_of_len(out@);
                    assert(r@ is Batch);
                    assert(r@->Batch_0 == views_of(out@));
                    assert(views_of(out@).len() == out@.len());
                    assert(r@->Batch_0.len() == all.len());
                    assert(forall|j: int| 0 <= j < all.len()
                        ==> map_colors_rel(all[j], #[trigger] r@->Batch_0[j], *f));
                }
                r
            },
            other => other,
        }
    }

    /// Feeds this command through a caller-supplied rewrite.
    pub fn and_then<F: FnOnce(RenderCommand) -> RenderCommand>(self, f: F) -> (r: RenderCommand)
        requires
            call_requires(f, (self,)),
        ensures
            call_ensures(f, (self,), r),
    {
        f(self)
    }
}

impl RenderCommand {
    /// The leaves of the tree at the value level, in traversal order.
    pub open spec fn spec_leaves(self) -> Seq<RenderCommand>
        decreases self,
    {
        match self {
            RenderCommand::Batch(cmds) => spec_leaves_of(cmds@),
            _ => seq![self],
        }
    }
}

/// The value-level leaves of every command in `cmds`, concatenated.
pub open spec fn spec_leaves_of(cmds: Seq<RenderCommand>) -> Seq<RenderCommand>
    decreases cmds,
{
    if cmds.len() == 0 {
        Seq::empty()
    } else {
        cmds[0].spec_leaves() + spec_leaves_of(cmds.skip(1))
    }
}

pub proof fn lemma_spec_leaves_of_take_step(cmds: Seq<RenderCommand>, i: int)
    requires
        0 <= i < cmds.len(),
    ensures
        spec_leaves_of(cmds.take(i + 1)) == spec_leaves_of(cmds.take(i)) + cmds[i].spec_leaves(),
    decreases i,
{
    let a = cmds.take(i + 1);
    let b = cmds.take(i);
    if i == 0 {
        assert(a =~= seq![cmds[0]]);
        assert(b =~= Seq::<RenderCommand>::empty());
        assert(a.skip(1) =~= Seq::<RenderCommand>::empty());
        assert(spec_leaves_of(a) == cmds[0].spec_leaves() + spec_leaves_of(a.skip(1)));
        assert(cmds[0].spec_leaves() + Seq::<RenderCommand>::empty() =~= Seq::<
            RenderCommand,
        >::empty() + cmds[0].spec_leaves());
    } else {
        lemma_spec_leaves_of_take_step(cmds.skip(1), i - 1);
        assert(a.skip(1) =~= cmds.skip(1).take(i));
        assert(b.skip(1) =~= cmds.skip(1).take(i - 1));
        assert(a[0] == cmds[0] && b[0] == cmds[0]);
        assert(cmds.skip(1)[i - 1] == cmds[i]);
        assert(cmds[0].spec_leaves() + (spec_leaves_of(cmds.skip(1).take(i - 1)) + cmds[i]
            .spec_leaves()) =~= (cmds[0].spec_leaves() + spec_leaves_of(cmds.skip(1).take(i - 1)))
            + cmds[i].spec_leaves());
    }
}

/// Whether `res` is a possible result of folding `f` over the leaf
/// sequence `s` starting from `acc`: some chain of intermediate values
/// permitted by `f`'s postcondition links them.
pub open spec fn fold_rel<T, F: Fn(T, &RenderCommand) -> T>(
    s: Seq<RenderCommand>,
    acc: T,
    f: F,
    res: T,
) -> bool
    decreases s.len(),
{
    if s.len() == 0 {
        res == acc
    } else {
        exists|mid: T|
            #[trigger] call_ensures(f, (acc, &s[0]), mid) && fold_rel(s.skip(1), mid, f, res)
    }
}

/// Folding over a concatenation chains the two folds.
pub proof fn lemma_fold_rel_concat<T, F: Fn(T, &RenderCommand) -> T>(
    s1: Seq<RenderCommand>,
    s2: Seq<RenderCommand>,
    acc: T,
    mid: T,
    f: F,
    res: T,
)
    requires
        fold_rel(s1, acc, f, mid),
        fold_rel(s2, mid, f, res),
    ensures
        fold_rel(s1 + s2, acc, f, res),
    decreases s1.len(),
{
    if s1.len() == 0 {
        assert(s1 + s2 =~= s2);
    } else {
        let m1 = choose|m1: T|
            #[trigger] call_ensures(f, (acc, &s1[0]), m1) && fold_rel(s1.skip(1), m1, f, mid);
        lemma_fold_rel_concat(s1.skip(1), s2, m1, mid, f, res);
        assert((s1 + s2).skip(1) =~= s1.skip(1) + s2);
        assert((s1 + s2)[0] == s1[0]);
    }
}

/// Whether `f` may be called with any accumulator on every leaf of `s`.
pub open spec fn fold_pre<T, F: Fn(T, &RenderCommand) -> T>(s: Seq<RenderCommand>, f: F) -> bool {
    forall|acc: T, i: int| 0 <= i < s.len() ==> call_requires(f, (acc, &s[i]))
}

impl RenderCommand {
    /// Folds `f` over the leaves of the tree, left to right, flattening
    /// batches.
    #[verifier::loop_isolation(false)]
    pub fn fold<T, F: Fn(T, &RenderCommand) -> T>(&self, init: T, f: &F) -> (res: T)
        requires
            fold_pre(self.spec_leaves(), *f),
        ensures
            fold_rel(self.spec_leaves(), init, *f, res),
        decreases self@.height(),
    {
        broadcast use lemma_views_of_len;

        match self {
            RenderCommand::Batch(cmds) => {
                let ghost origs: Seq<RenderCommand> = cmds@;
                let mut acc = init;
                let mut i: usize = 0;
                let n = cmds.len();
                proof {
                    assert(self.spec_leaves() == spec_leaves_of(origs));
                    assert(spec_leaves_of(origs.take(0)) =~= Seq::<RenderCommand>::empty());
                }
                while i < n
                    invariant
                        n == origs.len(),
                        0 <= i <= n,
                        fold_rel(spec_leaves_of(origs.take(i as int)), init, *f, acc),
                    decreases n - i,
                {
                    proof {
                        lemma_views_of_len(origs);
                        lemma_height_of_element(views_of(origs), i as int);
                        assert(origs[i as int]@ == views_of(origs)[i as int]);
                        lemma_spec_leaves_of_take_step(origs, i as int);
                        lemma_leaves_decompose(origs, i as int);
                        assert(origs.skip(i as int)[0] == origs[i as int]);
                        assert(spec_leaves_of(origs.skip(i as int)) == origs[i as int]
                            .spec_leaves() + spec_leaves_of(origs.skip(i as int).skip(1)));
                        assert forall|acc2: T, k: int|
                            0 <= k < origs[i as int].spec_leaves().len() implies call_requires(
                            *f,
                            (acc2, &origs[i as int].spec_leaves()[k]),
                        ) by {
                            let idx = spec_leaves_of(origs.take(i as int)).len() + k;
                            assert(spec_leaves_of(origs)[idx] == origs[i as int].spec_leaves()[k]);
                            assert(call_requires(*f, (acc2, &spec_leaves_of(origs)[idx])));
                        }
                    }
                    let c = &cmds[i];
                    let next = c.fold(acc, f);
                    proof {
                        lemma_fold_rel_concat(
                            spec_leaves_of(origs.take(i as int)),
                            origs[i as int].spec_leaves(),
                            init,
                            acc,
                            *f,
                            next,
                        );
                    }
                    acc = next;
                    i = i + 1;
                }
                proof {
                    assert(origs.take(n as int) =~= origs);
                    assert(spec_leaves_of(origs.take(n as int)) == spec_leaves_of(origs));
                    assert(fold_rel(spec_leaves_of(origs), init, *f, acc));
                    assert(self.spec_leaves() == spec_leaves_of(origs));
                }
                acc
            },
            other => {
                proof {
                    assert(other.spec_leaves() == seq![*other]);
                    assert(other.spec_leaves()[0] == *other);
                    assert(call_requires(*f, (init, other)));
                }
                let res = f(init, other);
                proof {
                    assert(other.spec_leaves().skip(1) =~= Seq::<RenderCommand>::empty());
                    assert(call_ensures(*f, (init, &other.spec_leaves()[0]), res));
                    assert(fold_rel(other.spec_leaves().skip(1), res, *f, res));
                    assert(fold_rel(other.spec_leaves(), init, *f, res));
                }
                res
            },
        }
    }
}

/// The leaf sequence splits at any point into the leaves of a prefix and
/// the leaves of the rest.
pub proof fn lemma_leaves_decompose(cmds: Seq<RenderCommand>, m: int)
    requires
        0 <= m <= cmds.len(),
    ensures
        spec_leaves_of(cmds) == spec_leaves_of(cmds.take(m)) + spec_leaves_of(cmds.skip(m)),
    decreases m,
{
    if m == 0 {
        assert(cmds.take(0) =~= Seq::<RenderCommand>::empty());
        assert(cmds.skip(0) =~= cmds);
        assert(spec_leaves_of(cmds) =~= Seq::<RenderCommand>::empty() + spec_leaves_of(cmds));
    } else {
        lemma_leaves_decompose(cmds.skip(1), m - 1);
        assert(cmds.take(m).skip(1) =~= cmds.skip(1).take(m - 1));
        assert(cmds.skip(m) =~= cmds.skip(1).skip(m - 1));
        assert(cmds.take(m)[0] == cmds[0]);
        assert(cmds[0].spec_leaves() + (spec_leaves_of(cmds.skip(1).take(m - 1))
            + spec_leaves_of(cmds.skip(1).skip(m - 1))) =~= (cmds[0].spec_leaves()
            + spec_leaves_of(cmds.skip(1).take(m - 1))) + spec_leaves_of(
            cmds.skip(1).skip(m - 1),
        ));
    }
}

impl Clone for RenderCommand {
    /// A deep copy with the same view.
    #[verifier::loop_isolation(false)]
    fn clone(&self) -> (r: Self)
        ensures
            r@ == self@,
        decreases self@.height(),
    {
        broadcast use lemma_views_of_len;

        match self {
            RenderCommand::Clear { color } => RenderCommand::Clear { color: *color },
            RenderCommand::FillRect { layer, zindex, rect, color, hsv } => {
                RenderCommand::FillRect {
                    layer: *layer,
                    zindex: *zindex,
                    rect: *rect,
                    color: *color,
                    hsv: *hsv,
                }
            },
            RenderCommand::DrawQuad {
                layer,
                zindex,
                position,
                texture,
                fg_color,
                alt_color,
                hsv,
                mode,
            } => RenderCommand::DrawQuad {
                layer: *layer,
                zindex: *zindex,
                position: *position,
                texture: *texture,
                fg_color: *fg_color,
                alt_color: *alt_color,
                hsv: *hsv,
                mode: *mode,
            },
            RenderCommand::SetClipRect(r) => RenderCommand::SetClipRect(*r),
            RenderCommand::BeginPostProcess => RenderCommand::BeginPostProcess,
            RenderCommand::Nop => RenderCommand::Nop,
            RenderCommand::Batch(cmds) => {
                let ghost all = views_of(cmds@);
                let mut copied: Vec<RenderCommand> = Vec::new();
                let mut i: usize = 0;
                let n = cmds.len();
                while i < n
                    invariant
                        n == cmds@.len(),
                        0 <= i <= n,
                        views_of(copied@) =~= all.take(i as int),
                    decreases n - i,
                {
                    proof {
                        lemma_height_of_element(all, i as int);
                        assert(cmds@[i as int]@ == all[i as int]);
                    }
                    let c = cmds[i].clone();
                    let ghost prev: Seq<RenderCommand> = copied@;
                    copied.push(c);
                    proof {
                        lemma_views_of_push(copied@, prev, c);
                        assert(views_of(copied@) =~= all.take(i as int + 1));
                    }
                    i = i + 1;
                }
                proof {
                    assert(all.take(n as int) =~= all);
                }
                RenderCommand::Batch(copied)
            },
        }
    }
}

pub open spec fn color_words(c: LinearRgba) -> Seq<u64> {
    seq![c.red as u64, c.green as u64, c.blue as u64, c.alpha as u64]
}

pub open spec fn rect_words(r: Rect) -> Seq<u64> {
    seq![r.x as u64, r.y as u64, r.width as u64, r.height as u64]
}

pub open spec fn tex_words(t: TextureCoords) -> Seq<u64> {
    seq![t.left as u64, t.top as u64, t.right as u64, t.bottom as u64]
}

pub open spec fn hsv_words(h: Option<HsbTransform>) -> Seq<u64> {
    match h {
        None => seq![0u64],
        Some(t) => seq![
            1u64,
            t.hue as u64,
            t.saturation as u64,
            t.brightness as u64,
        ],
    }
}

pub open spec fn mode_word(m: QuadMode) -> u64 {
    match m {
        QuadMode::Glyph => 0,
        QuadMode::ColorEmoji => 1,
        QuadMode::BackgroundImage => 2,
        QuadMode::SolidColor => 3,
        QuadMode::GrayScale => 4,
    }
}

pub open spec fn alt_words(a: Option<(LinearRgba, u16)>) -> Seq<u64> {
    match a {
        None => seq![0u64],
        Some((c, mix)) => seq![1u64] + color_words(c) + seq![mix as u64],
    }
}

/// The word encoding a hash digests: a tag for the discriminant of each
/// leaf, followed by its numeric fields.  A batch contributes only its
/// children's words, in order, not any identity of its own.
pub open spec fn cmd_words(v: CmdView) -> Seq<u64>
    decreases v,
{
    match v {
        CmdView::Clear { color } => seq![0u64] + color_words(color),
        CmdView::FillRect { layer, zindex, rect, color, hsv } => seq![
            1u64,
            layer as u64,
            zindex as u64,
        ] + rect_words(rect) + color_words(color) + hsv_words(hsv),
        CmdView::DrawQuad { layer, zindex, position, texture, fg_color, alt_color, hsv, mode } => {
            seq![2u64, layer as u64, zindex as u64] + rect_words(position) + tex_words(texture)
                + color_words(fg_color) + alt_words(alt_color) + hsv_words(hsv) + seq![
                mode_word(mode),
            ]
        },
        CmdView::SetClipRect(r) => match r {
            None => seq![3u64, 0u64],
            Some(rect) => seq![3u64, 1u64] + rect_words(rect),
        },
        CmdView::BeginPostProcess => seq![4u64],
        CmdView::Batch(cmds) => words_of(cmds),
        CmdView::Nop => seq![5u64],
    }
}

/// The words of every command in `cmds`, concatenated in order.
pub open spec fn words_of(cmds: Seq<CmdView>) -> Seq<u64>
    decreases cmds,
{
    if cmds.len() == 0 {
        Seq::empty()
    } else {
        cmd_words(cmds[0]) + words_of(cmds.skip(1))
    }
}

proof fn lemma_words_of_take_step(cmds: Seq<CmdView>, i: int)
    requires
        0 <= i < cmds.len(),
    ensures
        words_of(cmds.take(i + 1)) == words_of(cmds.take(i)) + cmd_words(cmds[i]),
    decreases i,
{
    let a = cmds.take(i + 1);
    let b = cmds.take(i);
    if i == 0 {
        assert(a =~= seq![cmds[0]]);
        assert(b =~= Seq::<CmdView>::empty());
        assert(a.skip(1) =~= Seq::<CmdView>::empty());
        assert(cmd_words(cmds[0]) + Seq::<u64>::empty() =~= Seq::<u64>::empty() + cmd_words(
            cmds[0],
        ));
    } else {
        lemma_words_of_take_step(cmds.skip(1), i - 1);
        assert(a.skip(1) =~= cmds.skip(1).take(i));
        assert(b.skip(1) =~= cmds.skip(1).take(i - 1));
        assert(a[0] == cmds[0] && b[0] == cmds[0]);
        assert(cmds.skip(1)[i - 1] == cmds[i]);
        assert(cmd_words(cmds[0]) + (words_of(cmds.skip(1).take(i - 1)) + cmd_words(cmds[i])) =~= (
        cmd_words(cmds[0]) + words_of(cmds.skip(1).take(i - 1))) + cmd_words(cmds[i]));
    }
}

/// The little-endian byte encoding of one 64-bit word.
pub open spec fn le_bytes(w: u64) -> Seq<u8> {
    seq![
        (w & 0xff) as u8,
        ((w >> 8) & 0xff) as u8,
        ((w >> 16) & 0xff) as u8,
        ((w >> 24) & 0xff) as u8,
        ((w >> 32) & 0xff) as u8,
        ((w >> 40) & 0xff) as u8,
        ((w >> 48) & 0xff) as u8,
        ((w >> 56) & 0xff) as u8,
    ]
}

/// The little-endian bytes of every word, concatenated.
pub open spec fn bytes_of_words(ws: Seq<u64>) -> Seq<u8>
    decreases ws,
{
    if ws.len() == 0 {
        Seq::empty()
    } else {
        le_bytes(ws[0]) + bytes_of_words(ws.skip(1))
    }
}

proof fn lemma_bytes_of_words_take_step(ws: Seq<u64>, i: int)
    requires
        0 <= i < ws.len(),
    ensures
        bytes_of_words(ws.take(i + 1)) == bytes_of_words(ws.take(i)) + le_bytes(ws[i]),
    decreases i,
{
    let a = ws.take(i + 1);
    let b = ws.take(i);
    if i == 0 {
        assert(a =~= seq![ws[0]]);
        assert(b =~= Seq::<u64>::empty());
        assert(a.skip(1) =~= Seq::<u64>::empty());
        assert(le_bytes(ws[0]) + Seq::<u8>::empty() =~= Seq::<u8>::empty() + le_bytes(ws[0]));
    } else {
        lemma_bytes_of_words_take_step(ws.skip(1), i - 1);
        assert(a.skip(1) =~= ws.skip(1).take(i));
        assert(b.skip(1) =~= ws.skip(1).take(i - 1));
        assert(a[0] == ws[0] && b[0] == ws[0]);
        assert(ws.skip(1)[i - 1] == ws[i]);
        assert(le_bytes(ws[0]) + (bytes_of_words(ws.skip(1).take(i - 1)) + le_bytes(ws[i])) =~= (
        le_bytes(ws[0]) + bytes_of_words(ws.skip(1).take(i - 1))) + le_bytes(ws[i]));
    }
}

/// The 64-bit fingerprint of a command list: the words of every command,
/// serialized to bytes and digested in one write.
pub open spec fn content_hash_spec(cmds: Seq<CmdView>) -> u64 {
    DefaultHasher::spec_finish(seq![bytes_of_words(words_of(cmds))])
}

impl RenderCommand {
    /// Appends this tree's hash words to `out`.
    #[verifier::loop_isolation(false)]
    #[verifier::rlimit(80)]
    fn push_words(&self, out: &mut Vec<u64>)
        ensures
            final(out)@ == old(out)@ + cmd_words(self@),
        decreases self@.height(),
    {
        broadcast use lemma_views_of_len;

        let ghost entry: Seq<u64> = out@;
        match self {
            RenderCommand::Clear { color } => {
                out.push(0);
                out.push(color.red as u64);
                out.push(color.green as u64);
                out.push(color.blue as u64);
                out.push(color.alpha as u64);
                proof {
                    assert(out@ =~= entry + cmd_words(self@));
                }
            },
            RenderCommand::FillRect { layer, zindex, rect, color, hsv } => {
                out.push(1);
                out.push(*layer as u64);
                out.push(*zindex as u64);
                push_rect_words(out, rect);
                out.push(color.red as u64);
                out.push(color.green as u64);
                out.push(color.blue as u64);
                out.push(color.alpha as u64);
                push_hsv_words(out, hsv);
                proof {
                    assert(out@ =~= entry + cmd_words(self@));
                }
            },
            RenderCommand::DrawQuad {
                layer,
                zindex,
                position,
                texture,
                fg_color,
                alt_color,
                hsv,
                mode,
            } => {
                out.push(2);
                out.push(*layer as u64);
                out.push(*zindex as u64);
                push_rect_words(out, position);
                out.push(texture.left as u64);
                out.push(texture.top as u64);
                out.push(texture.right as u64);
                out.push(texture.bottom as u64);
                out.push(fg_color.red as u64);
                out.push(fg_color.green as u64);
                out.push(fg_color.blue as u64);
                out.push(fg_color.alpha as u64);
                match alt_color {
                    None => {
                        out.push(0);
                    },
                    Some((c, mix)) => {
                        out.push(1);
                        out.push(c.red as u64);
                        out.push(c.green as u64);
                        out.push(c.blue as u64);
                        out.push(c.alpha as u64);
                        out.push(*mix as u64);
                    },
                }
                push_hsv_words(out, hsv);
                let word = match mode {
                    QuadMode::Glyph => 0,
                    QuadMode::ColorEmoji => 1,
                    QuadMode::BackgroundImage => 2,
                    QuadMode::SolidColor => 3,
                    QuadMode::GrayScale => 4,
                };
                out.push(word);
                proof {
                    assert(out@ =~= entry + cmd_words(self@));
                }
            },
            RenderCommand::SetClipRect(r) => {
                out.push(3);
                match r {
                    None => {
                        out.push(0);
                    },
                    Some(rect) => {
                        out.push(1);
                        push_rect_words(out, rect);
                    },
                }
                proof {
                    assert(out@ =~= entry + cmd_words(self@));
                }
            },
            RenderCommand::BeginPostProcess => {
                out.push(4);
                proof {
                    assert(out@ =~= entry + cmd_words(self@));
                }
            },
            RenderCommand::Nop => {
                out.push(5);
                proof {
                    assert(out@ =~= entry + cmd_words(self@));
                }
            },
            RenderCommand::Batch(cmds) => {
                let ghost all = views_of(cmds@);
                let mut i: usize = 0;
                let n = cmds.len();
                proof {
                    assert(words_of(all.take(0)) =~= Seq::<u64>::empty());
                    assert(out@ =~= entry + words_of(all.take(0)));
                }
                while i < n
                    invariant
                        n == cmds@.len(),
                        0 <= i <= n,
                        out@ == entry + words_of(all.take(i as int)),
                    decreases n - i,
                {
                    proof {
                        lemma_height_of_element(all, i as int);
                        assert(cmds@[i as int]@ == all[i as int]);
                        lemma_words_of_take_step(all, i as int);
                    }
                    let c = &cmds[i];
                    c.push_words(out);
                    proof {
                        assert(out@ =~= entry + words_of(all.take(i as int + 1)));
                    }
                    i = i + 1;
                }
                proof {
                    assert(all.take(n as int) =~= all);
                    assert(cmd_words(self@) == words_of(all));
                }
            },
        }
    }

    /// Produces a deterministic 64-bit fingerprint of a command list by
    /// digesting the discriminant and numeric fields of each leaf in
    /// traversal order; batches hash their children, not themselves.
    #[verifier::loop_isolation(false)]
    pub fn content_hash(commands: &[RenderCommand]) -> (r: u64)
        ensures
            r == content_hash_spec(views_of(commands@)),
    {
        broadcast use lemma_views_of_len;

        let ghost all = views_of(commands@);
        let mut words: Vec<u64> = Vec::new();
        let mut i: usize = 0;
        let n = commands.len();
        proof {
            assert(words@ =~= words_of(all.take(0)));
        }
        while i < n
            invariant
                n == commands@.len(),
                0 <= i <= n,
                words@ == words_of(all.take(i as int)),
            decreases n - i,
        {
            proof {
                assert(commands@[i as int]@ == all[i as int]);
                lemma_words_of_take_step(all, i as int);
            }
            let c = &commands[i];
            c.push_words(&mut words);
            proof {
                assert(words@ =~= words_of(all.take(i as int + 1)));
            }
            i = i + 1;
        }
        proof {
            assert(all.take(n as int) =~= all);
        }
        let mut bytes: Vec<u8> = Vec::new();
        let mut j: usize = 0;
        let wn = words.len();
        let ghost ws: Seq<u64> = words@;
        proof {
            assert(bytes@ =~= bytes_of_words(ws.take(0)));
        }
        while j < wn
            invariant
                wn == ws.len(),
                words@ == ws,
                0 <= j <= wn,
                bytes@ == bytes_of_words(ws.take(j as int)),
            decreases wn - j,
        {
            proof {
                lemma_bytes_of_words_take_step(ws, j as int);
            }
            let w = words[j];
            bytes.push((w & 0xff) as u8);
            bytes.push(((w >> 8) & 0xff) as u8);
            bytes.push(((w >> 16) & 0xff) as u8);
            bytes.push(((w >> 24) & 0xff) as u8);
            bytes.push(((w >> 32) & 0xff) as u8);
            bytes.push(((w >> 40) & 0xff) as u8);
            bytes.push(((w >> 48) & 0xff) as u8);
            bytes.push(((w >> 56) & 0xff) as u8);
            proof {
                assert(le_bytes(w) =~= seq![
                    (w & 0xff) as u8,
                    ((w >> 8) & 0xff) as u8,
                    ((w >> 16) & 0xff) as u8,
                    ((w >> 24) & 0xff) as u8,
                    ((w >> 32) & 0xff) as u8,
                    ((w >> 40) & 0xff) as u8,
                    ((w >> 48) & 0xff) as u8,
                    ((w >> 56) & 0xff) as u8,
                ]);
                assert(bytes@ =~= bytes_of_words(ws.take(j as int + 1)));
            }
            j = j + 1;
        }
        proof {
            assert(ws.take(wn as int) =~= ws);
        }
        let mut hasher = DefaultHasher::new();
        hasher.write(bytes.as_slice());
        proof {
            assert(hasher@ =~= seq![bytes_of_words(words_of(all))]);
        }
        hasher.finish()
    }
}

/// Digests a word list: serializes it to bytes and hashes them in one
/// write.
#[verifier::loop_isolation(false)]
fn digest_words(words: &Vec<u64>) -> (r: u64)
    ensures
        r == DefaultHasher::spec_finish(seq![bytes_of_words(words@)]),
{
    let mut bytes: Vec<u8> = Vec::new();
    let mut j: usize = 0;
    let wn = words.len();
    let ghost ws: Seq<u64> = words@;
    proof {
        assert(bytes@ =~= bytes_of_words(ws.take(0)));
    }
    while j < wn
        invariant
            wn == ws.len(),
            words@ == ws,
            0 <= j <= wn,
            bytes@ == bytes_of_words(ws.take(j as int)),
        decreases wn - j,
    {
        proof {
            lemma_bytes_of_words_take_step(ws, j as int);
        }
        let w = words[j];
        bytes.push((w & 0xff) as u8);
        bytes.push(((w >> 8) & 0xff) as u8);
        bytes.push(((w >> 16) & 0xff) as u8);
        bytes.push(((w >> 24) & 0xff) as u8);
        bytes.push(((w >> 32) & 0xff) as u8);
        bytes.push(((w >> 40) & 0xff) as u8);
        bytes.push(((w >> 48) & 0xff) as u8);
        bytes.push(((w >> 56) & 0xff) as u8);
        proof {
            assert(le_bytes(w) =~= seq![
                (w & 0xff) as u8,
                ((w >> 8) & 0xff) as u8,
                ((w >> 16) & 0xff) as u8,
                ((w >> 24) & 0xff) as u8,
                ((w >> 32) & 0xff) as u8,
                ((w >> 40) & 0xff) as u8,
                ((w >> 48) & 0xff) as u8,
                ((w >> 56) & 0xff) as u8,
            ]);
            assert(bytes@ =~= bytes_of_words(ws.take(j as int + 1)));
        }
        j = j + 1;
    }
    proof {
        assert(ws.take(wn as int) =~= ws);
    }
    let mut hasher = DefaultHasher::new();
    hasher.write(bytes.as_slice());
    proof {
        assert(hasher@ =~= seq![bytes_of_words(ws)]);
    }
    hasher.finish()
}

impl RenderCommand {
    /// The fingerprint of one command tree on its own.
    pub fn hash_value_of(&self) -> (r: u64)
        ensures
            r == content_hash_spec(seq![self@]),
    {
        let mut words: Vec<u64> = Vec::new();
        self.push_words(&mut words);
        proof {
            assert(seq![self@].skip(1) =~= Seq::<CmdView>::empty());
            assert(words_of(seq![self@].skip(1)) == Seq::<u64>::empty());
            assert(seq![self@][0] == self@);
            assert(words_of(seq![self@]) =~= cmd_words(self@) + Seq::<u64>::empty());
            assert(cmd_words(self@) + Seq::<u64>::empty() =~= cmd_words(self@));
            assert(words@ =~= Seq::<u64>::empty() + cmd_words(self@));
            assert(words@ == words_of(seq![self@]));
        }
        digest_words(&words)
    }

    /// Structural equality of two command trees: a sound check used to
    /// deduplicate interned values.
    #[verifier::loop_isolation(false)]
    pub fn same_tree(&self, other: &RenderCommand) -> (r: bool)
        ensures
            r ==> self@ == other@,
        decreases self@.height(),
    {
        broadcast use lemma_views_of_len;

        match (self, other) {
            (RenderCommand::Clear { color: a }, RenderCommand::Clear { color: b }) => a == b,
            (
                RenderCommand::FillRect { layer: l1, zindex: z1, rect: r1, color: c1, hsv: h1 },
                RenderCommand::FillRect { layer: l2, zindex: z2, rect: r2, color: c2, hsv: h2 },
            ) => l1 == l2 && z1 == z2 && r1 == r2 && c1 == c2 && h1 == h2,
            (
                RenderCommand::DrawQuad {
                    layer: l1,
                    zindex: z1,
                    position: p1,
                    texture: t1,
                    fg_color: f1,
                    alt_color: a1,
                    hsv: h1,
                    mode: m1,
                },
                RenderCommand::DrawQuad {
                    layer: l2,
                    zindex: z2,
                    position: p2,
                    texture: t2,
                    fg_color: f2,
                    alt_color: a2,
                    hsv: h2,
                    mode: m2,
                },
            ) => {
                let alt_same = match (a1, a2) {
                    (None, None) => true,
                    (Some((c1, x1)), Some((c2, x2))) => c1 == c2 && x1 == x2,
                    _ => false,
                };
                l1 == l2 && z1 == z2 && p1 == p2 && t1 == t2 && f1 == f2 && alt_same && h1 == h2
                    && m1 == m2
            },
            (RenderCommand::SetClipRect(r1), RenderCommand::SetClipRect(r2)) => r1 == r2,
            (RenderCommand::BeginPostProcess, RenderCommand::BeginPostProcess) => true,
            (RenderCommand::Nop, RenderCommand::Nop) => true,
            (RenderCommand::Batch(xs), RenderCommand::Batch(ys)) => {
                if xs.len() != ys.len() {
                    false
                } else {
                    let n = xs.len();
                    let mut i: usize = 0;
                    let mut same = true;
                    while i < n
                        invariant
                            n == xs@.len() == ys@.len(),
                            0 <= i <= n,
                            same ==> forall|j: int|
                                0 <= j < i ==> (#[trigger] xs@[j])@ == ys@[j]@,
                        decreases n - i,
                    {
                        proof {
                            lemma_height_of_element(views_of(xs@), i as int);
                            assert(xs@[i as int]@ == views_of(xs@)[i as int]);
                        }
                        let a = &xs[i];
                        let b = &ys[i];
                        if !a.same_tree(b) {
                            same = false;
                        }
                        i = i + 1;
                    }
                    proof {
                        if same {
                            assert(views_of(xs@) =~= views_of(ys@));
                        }
                    }
                    same
                }
            },
            _ => false,
        }
    }
}

/// Hashing is a pure function of structure and leaf field values: two
/// command lists whose trees are structurally and numerically identical
/// always produce the same fingerprint.
pub proof fn lemma_content_hash_pure(a: Seq<RenderCommand>, b: Seq<RenderCommand>)
    requires
        views_of(a) == views_of(b),
    ensures
        content_hash_spec(views_of(a)) == content_hash_spec(views_of(b)),
{
}

fn push_rect_words(out: &mut Vec<u64>, r: &Rect)
    ensures
        final(out)@ == old(out)@ + rect_words(*r),
{
    let ghost entry: Seq<u64> = out@;
    out.push(r.x as u64);
    out.push(r.y as u64);
    out.push(r.width as u64);
    out.push(r.height as u64);
    proof {
        assert(out@ =~= entry + rect_words(*r));
    }
}

fn push_hsv_words(out: &mut Vec<u64>, h: &Option<HsbTransform>)
    ensures
        final(out)@ == old(out)@ + hsv_words(*h),
{
    let ghost entry: Seq<u64> = out@;
    match h {
        None => {
            out.push(0);
        },
        Some(t) => {
            out.push(1);
            out.push(t.hue as u64);
            out.push(t.saturation as u64);
            out.push(t.brightness as u64);
        },
    }
    proof {
        assert(out@ =~= entry + hsv_words(*h));
    }
}

/// Splits a list's leaves at element `i`: the leaves of the prefix, the
/// element's own leaves, and the leaves of the rest, in order.
pub proof fn lemma_leaves_split(cmds: Seq<RenderCommand>, i: int)
    requires
        0 <= i < cmds.len(),
    ensures
        spec_leaves_of(cmds.take(i + 1)) == spec_leaves_of(cmds.take(i)) + cmds[i].spec_leaves(),
        spec_leaves_of(cmds) == spec_leaves_of(cmds.take(i)) + spec_leaves_of(cmds.skip(i)),
        spec_leaves_of(cmds.skip(i)) == cmds[i].spec_leaves() + spec_leaves_of(
            cmds.skip(i).skip(1),
        ),
{
    lemma_spec_leaves_of_take_step(cmds, i);
    lemma_leaves_decompose(cmds, i);
    assert(cmds.skip(i)[0] == cmds[i]);
}

/// How a rewritten tree relates to its source: batches match node for
/// node, and every leaf of the result is a possible output of `f` on the
/// corresponding source leaf.
pub open spec fn traverse_rel<F: Fn(&RenderCommand) -> RenderCommand>(
    a: RenderCommand,
    b: RenderCommand,
    f: F,
) -> bool
    decreases a,
{
    match a {
        RenderCommand::Batch(xs) => match b {
            RenderCommand::Batch(ys) => traverse_rel_seq(xs@, ys@, f),
            _ => false,
        },
        other => call_ensures(f, (&other,), b),
    }
}

/// `traverse_rel`, element by element over two command lists.
pub open spec fn traverse_rel_seq<F: Fn(&RenderCommand) -> RenderCommand>(
    xs: Seq<RenderCommand>,
    ys: Seq<RenderCommand>,
    f: F,
) -> bool
    decreases xs,
{
    if xs.len() == 0 {
        ys.len() == 0
    } else {
        &&& ys.len() > 0
        &&& traverse_rel(xs[0], ys[0], f)
        &&& traverse_rel_seq(xs.skip(1), ys.skip(1), f)
    }
}

/// Extending a pair of related lists by one more related element.
pub proof fn lemma_traverse_rel_snoc<F: Fn(&RenderCommand) -> RenderCommand>(
    xs: Seq<RenderCommand>,
    ys: Seq<RenderCommand>,
    i: int,
    m: RenderCommand,
    f: F,
)
    requires
        0 <= i < xs.len(),
        traverse_rel_seq(xs.take(i), ys, f),
        traverse_rel(xs[i], m, f),
    ensures
        traverse_rel_seq(xs.take(i + 1), ys.push(m), f),
    decreases i,
{
    if i == 0 {
        assert(xs.take(0) =~= Seq::<RenderCommand>::empty());
        assert(ys.len() == 0);
        assert(ys.push(m) =~= seq![m]);
        assert(xs.take(1) =~= seq![xs[0]]);
        assert(xs.take(1)[0] == xs[0]);
        assert(ys.push(m)[0] == m);
        assert(xs.take(1).skip(1) =~= Seq::<RenderCommand>::empty());
        assert(ys.push(m).skip(1) =~= Seq::<RenderCommand>::empty());
        assert(traverse_rel_seq(
            Seq::<RenderCommand>::empty(),
            Seq::<RenderCommand>::empty(),
            f,
        ));
    } else {
        assert(xs.take(i)[0] == xs[0]);
        assert(xs.take(i).skip(1) =~= xs.skip(1).take(i - 1));
        assert(xs.skip(1)[i - 1] == xs[i]);
        lemma_traverse_rel_snoc(xs.skip(1), ys.skip(1), i - 1, m, f);
        assert(xs.take(i + 1)[0] == xs[0]);
        assert(xs.take(i + 1).skip(1) =~= xs.skip(1).take(i));
        assert(ys.len() > 0);
        assert(ys.push(m)[0] == ys[0]);
        assert(ys.push(m).skip(1) =~= ys.skip(1).push(m));
        assert(traverse_rel(xs.take(i + 1)[0], ys.push(m)[0], f));
        assert(traverse_rel_seq(xs.take(i + 1).skip(1), ys.push(m).skip(1), f));
    }
}

/// Rewrites every leaf of a command tree with `f`, preserving batch
/// structure.
#[verifier::loop_isolation(false)]
pub fn traverse_deep_command<F: Fn(&RenderCommand) -> RenderCommand>(
    command: RenderCommand,
    f: &F,
) -> (r: RenderCommand)
    requires
        forall|i: int|
            0 <= i < command.spec_leaves().len() ==> #[trigger] call_requires(
                f,
                (&command.spec_leaves()[i],),
            ),
    ensures
        traverse_rel(command, r, *f),
    decreases command@.height(),
{
    let ghost orig = command;
    broadcast use lemma_views_of_len;

    match command {
        RenderCommand::Batch(cmds) => {
            let ghost origv_d: Vec<RenderCommand> = cmds;
            let ghost origs: Seq<RenderCommand> = cmds@;
            let n = cmds.len();
            let mut out: Vec<RenderCommand> = Vec::new();
            let mut rest = cmds;
            let mut i: usize = 0;
            proof {
                assert(origs.take(0) =~= Seq::<RenderCommand>::empty());
            }
            while i < n
                invariant
                    n == origs.len(),
                    0 <= i <= n,
                    rest@ =~= origs.skip(i as int),
                    traverse_rel_seq(origs.take(i as int), out@, *f),
                decreases n - i,
            {
                proof {
                    assert(origs.skip(i as int)[0] == origs[i as int]);
                    lemma_height_of_element(views_of(origs), i as int);
                    assert(origs[i as int]@ == views_of(origs)[i as int]);
                    lemma_leaves_split(origs, i as int);
                    assert forall|k: int|
                        0 <= k < origs[i as int].spec_leaves().len() implies #[trigger] call_requires(
                        *f,
                        (&origs[i as int].spec_leaves()[k],),
                    ) by {
                        let idx = spec_leaves_of(origs.take(i as int)).len() + k;
                        assert(spec_leaves_of(origs)[idx] == origs[i as int].spec_leaves()[k]);
                        assert(call_requires(*f, (&spec_leaves_of(origs)[idx],)));
                    }
                }
                let cmd = rest.remove(0);
                let ghost out_before: Seq<RenderCommand> = out@;
                let mapped = traverse_deep_command(cmd, f);
                out.push(mapped);
                proof {
                    assert(rest@ =~= origs.skip(i as int + 1));
                    lemma_traverse_rel_snoc(origs, out_before, i as int, mapped, *f);
                }
                i = i + 1;
            }
            proof {
                assert(origs.take(n as int) =~= origs);
                assert(orig == RenderCommand::Batch(origv_d));
            }
            RenderCommand::Batch(out)
        },
        other => {
            proof {
                assert(other.spec_leaves() == seq![other]);
                assert(other.spec_leaves()[0] == other);
                assert(call_requires(*f, (&other,)));
            }
            f(&other)
        },
    }
}

/// Clipping law for fills: for every rectangle R and clip rectangle C,
/// clipping a fill with rectangle R against C yields `Nop` exactly when R
/// and C do not overlap, and otherwise a fill over the intersection of R
/// and C with every other field kept.
pub proof fn lemma_clip_fill_rect(
    layer: usize,
    zindex: i8,
    r: Rect,
    color: LinearRgba,
    hsv: Option<HsbTransform>,
    clip: Rect,
)
    ensures
        ({
            let v = CmdView::FillRect { layer, zindex, rect: r, color, hsv };
            &&& (v.clip_spec(clip) is Nop <==> !r.spec_intersects(clip))
            &&& (r.spec_intersects(clip) ==> v.clip_spec(clip) == (CmdView::FillRect {
                layer,
                zindex,
                rect: r.spec_intersection(clip),
                color,
                hsv,
            }))
        }),
{
}

} // verus!
