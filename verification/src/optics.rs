//! Optics over frames and command trees: lenses for pane fields, prisms
//! for command variants, and traversals that fold or rewrite every
//! drawing command in a frame.

use vstd::prelude::*;
use crate::command::{
    HsbTransform, LinearRgba, QuadMode, Rect, RenderCommand, TextureCoords,
};
use crate::frame::{Frame, PaneFrame};

verus! {

/// A focus on one part of a structure that is always present.
pub trait Lens<S, A> {
    /// The focused value.
    spec fn spec_view(&self, source: S) -> A;

    /// The structure with the focus replaced.
    spec fn spec_update(&self, source: S, value: A) -> S;

    fn view<'a>(&self, source: &'a S) -> (r: &'a A)
        ensures
            *r == self.spec_view(*source),
    ;

    fn over<F: FnOnce(A) -> A>(&self, source: S, f: F) -> (r: S)
        requires
            call_requires(f, (self.spec_view(source),)),
        ensures
            exists|b: A|
                #[trigger] call_ensures(f, (self.spec_view(source),), b) && r == self.spec_update(
                    source,
                    b,
                ),
    ;
}

/// A focus on one variant of a sum that may be absent.
pub trait Prism<S, A> {
    spec fn spec_preview(&self, source: S) -> Option<A>;

    spec fn spec_review(&self, value: A) -> S;

    fn preview(&self, source: &S) -> (r: Option<A>)
        ensures
            r == self.spec_preview(*source),
    ;

    fn review(&self, value: A) -> (r: S)
        ensures
            r == self.spec_review(value),
    ;
}

/// Whether `res` can result from folding `f` left to right over `s`
/// starting from `acc`.
pub open spec fn fold_chain<A, B, F: Fn(B, &A) -> B>(s: Seq<A>, acc: B, f: F, res: B) -> bool
    decreases s.len(),
{
    if s.len() == 0 {
        res == acc
    } else {
        exists|mid: B|
            #[trigger] call_ensures(f, (acc, &s[0]), mid) && fold_chain(s.skip(1), mid, f, res)
    }
}

/// A focus on every element of one kind within a structure.
pub trait Traversal<S, A> {
    /// The focused elements, in traversal order.
    spec fn spec_targets(&self, source: S) -> Seq<A>;

    fn fold<B, F: Fn(B, &A) -> B>(&self, source: &S, init: B, f: &F) -> (res: B)
        requires
            forall|acc: B, i: int|
                0 <= i < self.spec_targets(*source).len() ==> call_requires(
                    f,
                    (acc, &self.spec_targets(*source)[i]),
                ),
        ensures
            fold_chain(self.spec_targets(*source), init, *f, res),
    ;

    fn traverse<F: Fn(&A) -> A>(&self, source: S, f: &F) -> (r: S)
        requires
            forall|i: int|
                0 <= i < self.spec_targets(source).len() ==> call_requires(
                    f,
                    (&self.spec_targets(source)[i],),
                ),
    ;
}

/// Two optics composed outer-then-inner.
pub struct Compose<Outer, Inner>(pub Outer, pub Inner);

/// The fields of a `FillRect` command.
#[derive(Clone, Copy, Debug, PartialEq, Eq, Structural)]
pub struct FillRectFields {
    pub layer: usize,
    pub zindex: i8,
    pub rect: Rect,
    pub color: LinearRgba,
    pub hsv: Option<HsbTransform>,
}

/// The fields of a `DrawQuad` command.
#[derive(Clone, Copy, Debug, PartialEq, Eq)]
pub struct DrawQuadFields {
    pub layer: usize,
    pub zindex: i8,
    pub position: Rect,
    pub texture: TextureCoords,
    pub fg_color: LinearRgba,
    pub alt_color: Option<(LinearRgba, u16)>,
    pub hsv: Option<HsbTransform>,
    pub mode: QuadMode,
}

/// Lens from a pane to its bounds.
pub struct PaneBounds;

impl Lens<PaneFrame, Rect> for PaneBounds {
    open spec fn spec_view(&self, source: PaneFrame) -> Rect {
        source.bounds
    }

    open spec fn spec_update(&self, source: PaneFrame, value: Rect) -> PaneFrame {
        PaneFrame { bounds: value, ..source }
    }

    fn view<'a>(&self, source: &'a PaneFrame) -> (r: &'a Rect) {
        &source.bounds
    }

    fn over<F: FnOnce(Rect) -> Rect>(&self, source: PaneFrame, f: F) -> (r: PaneFrame) {
        let PaneFrame {
            pane_id,
            is_active,
            bounds,
            command_hash,
            cache_key,
            commands,
            last_execution_stats,
            skip_streak,
        } = source;
        let new_bounds = f(bounds);
        PaneFrame {
            pane_id,
            is_active,
            bounds: new_bounds,
            command_hash,
            cache_key,
            commands,
            last_execution_stats,
            skip_streak,
        }
    }
}

/// Lens from a pane to its command list.
pub struct PaneCommands;

impl Lens<PaneFrame, Vec<RenderCommand>> for PaneCommands {
    open spec fn spec_view(&self, source: PaneFrame) -> Vec<RenderCommand> {
        source.commands
    }

    open spec fn spec_update(&self, source: PaneFrame, value: Vec<RenderCommand>) -> PaneFrame {
        PaneFrame { commands: value, ..source }
    }

    fn view<'a>(&self, source: &'a PaneFrame) -> (r: &'a Vec<RenderCommand>) {
        &source.commands
    }

    fn over<F: FnOnce(Vec<RenderCommand>) -> Vec<RenderCommand>>(
        &self,
        source: PaneFrame,
        f: F,
    ) -> (r: PaneFrame) {
        let PaneFrame {
            pane_id,
            is_active,
            bounds,
            command_hash,
            cache_key,
            commands,
            last_execution_stats,
            skip_streak,
        } = source;
        let new_commands = f(commands);
        PaneFrame {
            pane_id,
            is_active,
            bounds,
            command_hash,
            cache_key,
            commands: new_commands,
            last_execution_stats,
            skip_streak,
        }
    }
}

/// Prism from a command to its `FillRect` fields.
pub struct AsFillRect;

impl Prism<RenderCommand, FillRectFields> for AsFillRect {
    open spec fn spec_preview(&self, source: RenderCommand) -> Option<FillRectFields> {
        match source {
            RenderCommand::FillRect { layer, zindex, rect, color, hsv } => Some(
                FillRectFields { layer, zindex, rect, color, hsv },
            ),
            _ => None,
        }
    }

    open spec fn spec_review(&self, value: FillRectFields) -> RenderCommand {
        RenderCommand::FillRect {
            layer: value.layer,
            zindex: value.zindex,
            rect: value.rect,
            color: value.color,
            hsv: value.hsv,
        }
    }

    fn preview(&self, source: &RenderCommand) -> (r: Option<FillRectFields>) {
        match source {
            RenderCommand::FillRect { layer, zindex, rect, color, hsv } => Some(
                FillRectFields {
                    layer: *layer,
                    zindex: *zindex,
                    rect: *rect,
                    color: *color,
                    hsv: *hsv,
                },
            ),
            _ => None,
        }
    }

    fn review(&self, value: FillRectFields) -> (r: RenderCommand) {
        RenderCommand::FillRect {
            layer: value.layer,
            zindex: value.zindex,
            rect: value.rect,
            color: value.color,
            hsv: value.hsv,
        }
    }
}

/// Prism from a command to its `DrawQuad` fields.
pub struct AsDrawQuad;

impl Prism<RenderCommand, DrawQuadFields> for AsDrawQuad {
    open spec fn spec_preview(&self, source: RenderCommand) -> Option<DrawQuadFields> {
        match source {
            RenderCommand::DrawQuad {
                layer,
                zindex,
                position,
                texture,
                fg_color,
                alt_color,
                hsv,
                mode,
            } => Some(
                DrawQuadFields { layer, zindex, position, texture, fg_color, alt_color, hsv, mode },
            ),
            _ => None,
        }
    }

    open spec fn spec_review(&self, value: DrawQuadFields) -> RenderCommand {
        RenderCommand::DrawQuad {
            layer: value.layer,
            zindex: value.zindex,
            position: value.position,
            texture: value.texture,
            fg_color: value.fg_color,
            alt_color: value.alt_color,
            hsv: value.hsv,
            mode: value.mode,
        }
    }

    fn preview(&self, source: &RenderCommand) -> (r: Option<DrawQuadFields>) {
        match source {
            RenderCommand::DrawQuad {
                layer,
                zindex,
                position,
                texture,
                fg_color,
                alt_color,
                hsv,
                mode,
            } => Some(
                DrawQuadFields {
                    layer: *layer,
                    zindex: *zindex,
                    position: *position,
                    texture: *texture,
                    fg_color: *fg_color,
                    alt_color: *alt_color,
                    hsv: *hsv,
                    mode: *mode,
                },
            ),
            _ => None,
        }
    }

    fn review(&self, value: DrawQuadFields) -> (r: RenderCommand) {
        RenderCommand::DrawQuad {
            layer: value.layer,
            zindex: value.zindex,
            position: value.position,
            texture: value.texture,
            fg_color: value.fg_color,
            alt_color: value.alt_color,
            hsv: value.hsv,
            mode: value.mode,
        }
    }
}

/// Traversal over every leaf command in a list, flattening batches.
pub struct DeepCommands;

/// `fold_chain` and the command module's fold relation coincide.
proof fn lemma_chain_is_fold_rel<B, F: Fn(B, &RenderCommand) -> B>(
    s: Seq<RenderCommand>,
    acc: B,
    f: F,
    res: B,
)
    requires
        crate::command::fold_rel(s, acc, f, res),
    ensures
        fold_chain(s, acc, f, res),
    decreases s.len(),
{
    if s.len() > 0 {
        let mid = choose|mid: B|
            #[trigger] call_ensures(f, (acc, &s[0]), mid) && crate::command::fold_rel(
                s.skip(1),
                mid,
                f,
                res,
            );
        lemma_chain_is_fold_rel(s.skip(1), mid, f, res);
    }
}

impl Traversal<Vec<RenderCommand>, RenderCommand> for DeepCommands {
    open spec fn spec_targets(&self, source: Vec<RenderCommand>) -> Seq<RenderCommand> {
        crate::command::spec_leaves_of(source@)
    }

    #[verifier::loop_isolation(false)]
    fn fold<B, F: Fn(B, &RenderCommand) -> B>(
        &self,
        source: &Vec<RenderCommand>,
        init: B,
        f: &F,
    ) -> (res: B) {
        let ghost targets = crate::command::spec_leaves_of(source@);
        let n = source.len();
        let mut acc = init;
        let mut i: usize = 0;
        proof {
            assert(self.spec_targets(*source) == targets);
            assert(source@.take(0) =~= Seq::<RenderCommand>::empty());
            assert(crate::command::spec_leaves_of(source@.take(0))
                =~= Seq::<RenderCommand>::empty());
        }
        while i < n
            invariant
                n == source@.len(),
                0 <= i <= n,
                crate::command::fold_rel(
                    crate::command::spec_leaves_of(source@.take(i as int)),
                    init,
                    *f,
                    acc,
                ),
            decreases n - i,
        {
            proof {
                crate::command::lemma_leaves_split(source@, i as int);
                assert forall|acc2: B, k: int|
                    0 <= k < source@[i as int].spec_leaves().len() implies call_requires(
                    *f,
                    (acc2, &source@[i as int].spec_leaves()[k]),
                ) by {
                    let idx = crate::command::spec_leaves_of(source@.take(i as int)).len() + k;
                    assert(crate::command::spec_leaves_of(source@)[idx] == source@[i as int]
                        .spec_leaves()[k]);
                    assert(call_requires(*f, (acc2, &self.spec_targets(*source)[idx])));
                }
            }
            let c = &source[i];
            let next = c.fold(acc, f);
            proof {
                crate::command::lemma_fold_rel_concat(
                    crate::command::spec_leaves_of(source@.take(i as int)),
                    source@[i as int].spec_leaves(),
                    init,
                    acc,
                    *f,
                    next,
                );
            }
            acc = next;
            i = i + 1;
        }
        proof {
            assert(source@.take(n as int) =~= source@);
            lemma_chain_is_fold_rel(targets, init, *f, acc);
        }
        acc
    }

    #[verifier::loop_isolation(false)]
    fn traverse<F: Fn(&RenderCommand) -> RenderCommand>(
        &self,
        source: Vec<RenderCommand>,
        f: &F,
    ) -> (r: Vec<RenderCommand>)
        ensures
            crate::command::traverse_rel_seq(source@, r@, *f),
    {
        let ghost targets = self.spec_targets(source);
        let n = source.len();
        let mut out: Vec<RenderCommand> = Vec::new();
        let mut rest = source;
        let ghost origs = rest@;
        proof {
            assert(targets == crate::command::spec_leaves_of(origs));
            assert(origs.take(0) =~= Seq::<RenderCommand>::empty());
        }
        let mut i: usize = 0;
        while i < n
            invariant
                n == origs.len(),
                0 <= i <= n,
                rest@ =~= origs.skip(i as int),
                crate::command::traverse_rel_seq(origs.take(i as int), out@, *f),
            decreases n - i,
        {
            proof {
                assert(origs.skip(i as int)[0] == origs[i as int]);
                crate::command::lemma_leaves_split(origs, i as int);
                assert forall|k: int|
                    0 <= k < origs[i as int].spec_leaves().len() implies #[trigger] call_requires(
                    *f,
                    (&origs[i as int].spec_leaves()[k],),
                ) by {
                    let idx = crate::command::spec_leaves_of(origs.take(i as int)).len() + k;
                    assert(crate::command::spec_leaves_of(origs)[idx] == origs[i as int]
                        .spec_leaves()[k]);
                    assert(call_requires(*f, (&targets[idx],)));
                }
            }
            let cmd = rest.remove(0);
            let ghost out_before: Seq<RenderCommand> = out@;
            let mapped = crate::command::traverse_deep_command(cmd, f);
            out.push(mapped);
            proof {
                assert(rest@ =~= origs.skip(i as int + 1));
                crate::command::lemma_traverse_rel_snoc(origs, out_before, i as int, mapped, *f);
            }
            i = i + 1;
        }
        proof {
            assert(origs.take(n as int) =~= origs);
        }
        out
    }
}

/// Traversal over every pane of a frame.
pub struct AllPanes;

impl Traversal<Frame, PaneFrame> for AllPanes {
    open spec fn spec_targets(&self, source: Frame) -> Seq<PaneFrame> {
        source.panes@
    }

    #[verifier::loop_isolation(false)]
    fn fold<B, F: Fn(B, &PaneFrame) -> B>(&self, source: &Frame, init: B, f: &F) -> (res: B) {
        proof {
            assert(self.spec_targets(*source) == source.panes@);
        }
        let n = source.panes.len();
        let mut acc = init;
        let mut i: usize = 0;
        while i < n
            invariant
                n == source.panes@.len(),
                0 <= i <= n,
                fold_chain(source.panes@.take(i as int), init, *f, acc),
            decreases n - i,
        {
            proof {
                assert(call_requires(*f, (acc, &self.spec_targets(*source)[i as int])));
            }
            let pane = &source.panes[i];
            let next = f(acc, pane);
            proof {
                lemma_fold_chain_snoc(source.panes@, i as int, init, acc, *f, next);
            }
            acc = next;
            i = i + 1;
        }
        proof {
            assert(source.panes@.take(n as int) =~= source.panes@);
        }
        acc
    }

    #[verifier::loop_isolation(false)]
    fn traverse<F: Fn(&PaneFrame) -> PaneFrame>(&self, source: Frame, f: &F) -> (r: Frame)
        ensures
            r.background == source.background,
            r.chrome == source.chrome,
            r.panes@.len() == source.panes@.len(),
            forall|i: int|
                0 <= i < source.panes@.len() ==> call_ensures(
                    *f,
                    (&source.panes@[i],),
                    #[trigger] r.panes@[i],
                ),
    {
        let ghost targets = self.spec_targets(source);
        let Frame { background, panes, chrome } = source;
        let ghost origs = panes@;
        proof {
            assert(targets == origs);
        }
        let n = panes.len();
        let mut out: Vec<PaneFrame> = Vec::new();
        let mut rest = panes;
        let mut i: usize = 0;
        while i < n
            invariant
                n == origs.len(),
                0 <= i <= n,
                rest@ =~= origs.skip(i as int),
                targets == origs,
                out@.len() == i,
                forall|j: int| 0 <= j < n ==> call_requires(*f, (&(#[trigger] targets[j]),)),
                forall|j: int|
                    0 <= j < i ==> call_ensures(*f, (&origs[j],), #[trigger] out@[j]),
            decreases n - i,
        {
            proof {
                assert(origs.skip(i as int)[0] == origs[i as int]);
            }
            let pane = rest.remove(0);
            proof {
                assert(call_requires(*f, (&targets[i as int],)));
            }
            let mapped = f(&pane);
            out.push(mapped);
            proof {
                assert(rest@ =~= origs.skip(i as int + 1));
            }
            i = i + 1;
        }
        Frame { background, panes: out, chrome }
    }
}

/// Extending a fold chain by one more element.
proof fn lemma_fold_chain_snoc<A, B, F: Fn(B, &A) -> B>(
    s: Seq<A>,
    i: int,
    init: B,
    acc: B,
    f: F,
    next: B,
)
    requires
        0 <= i < s.len(),
        fold_chain(s.take(i), init, f, acc),
        call_ensures(f, (acc, &s[i]), next),
    ensures
        fold_chain(s.take(i + 1), init, f, next),
    decreases i,
{
    if i == 0 {
        assert(s.take(1) =~= seq![s[0]]);
        assert(s.take(1).skip(1) =~= Seq::<A>::empty());
        assert(s.take(1)[0] == s[0]);
        assert(call_ensures(f, (init, &s.take(1)[0]), next));
        assert(fold_chain(s.take(1).skip(1), next, f, next));
    } else {
        let mid = choose|mid: B|
            #[trigger] call_ensures(f, (init, &s.take(i)[0]), mid) && fold_chain(
                s.take(i).skip(1),
                mid,
                f,
                acc,
            );
        assert(s.take(i)[0] == s[0]);
        assert(s.take(i).skip(1) =~= s.skip(1).take(i - 1));
        assert(s.skip(1)[i - 1] == s[i]);
        lemma_fold_chain_snoc(s.skip(1), i - 1, mid, acc, f, next);
        assert(s.take(i + 1)[0] == s[0]);
        assert(s.take(i + 1).skip(1) =~= s.skip(1).take(i));
        assert(call_ensures(f, (init, &s.take(i + 1)[0]), mid));
    }
}

impl Traversal<Frame, Vec<RenderCommand>> for Compose<AllPanes, PaneCommands> {
    open spec fn spec_targets(&self, source: Frame) -> Seq<Vec<RenderCommand>> {
        Seq::new(source.panes@.len(), |i: int| source.panes@[i].commands)
    }

    #[verifier::loop_isolation(false)]
    fn fold<B, F: Fn(B, &Vec<RenderCommand>) -> B>(&self, source: &Frame, init: B, f: &F) -> (res:
        B) {
        let ghost targets = self.spec_targets(*source);
        let n = source.panes.len();
        let mut acc = init;
        let mut i: usize = 0;
        while i < n
            invariant
                n == source.panes@.len(),
                0 <= i <= n,
                targets == self.spec_targets(*source),
                targets.len() == n,
                forall|j: int| 0 <= j < n ==> targets[j] == (#[trigger] source.panes@[j]).commands,
                fold_chain(targets.take(i as int), init, *f, acc),
            decreases n - i,
        {
            proof {
                assert(call_requires(*f, (acc, &self.spec_targets(*source)[i as int])));
                assert(targets[i as int] == source.panes@[i as int].commands);
            }
            let pane = &source.panes[i];
            let next = f(acc, &pane.commands);
            proof {
                lemma_fold_chain_snoc(targets, i as int, init, acc, *f, next);
            }
            acc = next;
            i = i + 1;
        }
        proof {
            assert(targets.take(n as int) =~= targets);
        }
        acc
    }

    #[verifier::loop_isolation(false)]
    fn traverse<F: Fn(&Vec<RenderCommand>) -> Vec<RenderCommand>>(
        &self,
        source: Frame,
        f: &F,
    ) -> (r: Frame)
        ensures
            r.background == source.background,
            r.chrome == source.chrome,
            r.panes@.len() == source.panes@.len(),
            forall|i: int|
                0 <= i < source.panes@.len() ==> call_ensures(
                    *f,
                    (&source.panes@[i].commands,),
                    (#[trigger] r.panes@[i]).commands,
                ) && r.panes@[i] == (PaneFrame {
                    commands: r.panes@[i].commands,
                    ..source.panes@[i]
                }),
    {
        let ghost targets = self.spec_targets(source);
        let Frame { background, panes, chrome } = source;
        let ghost origs = panes@;
        proof {
            assert(targets.len() == origs.len());
            assert forall|j: int| 0 <= j < origs.len() implies call_requires(
                *f,
                (&(#[trigger] origs[j]).commands,),
            ) by {
                assert(targets[j] == origs[j].commands);
                assert(call_requires(*f, (&targets[j],)));
            }
        }
        let n = panes.len();
        let mut out: Vec<PaneFrame> = Vec::new();
        let mut rest = panes;
        let mut i: usize = 0;
        while i < n
            invariant
                n == origs.len(),
                0 <= i <= n,
                rest@ =~= origs.skip(i as int),
                out@.len() == i,
                forall|j: int|
                    0 <= j < n ==> call_requires(*f, (&(#[trigger] origs[j]).commands,)),
                forall|j: int|
                    0 <= j < i ==> call_ensures(
                        *f,
                        (&origs[j].commands,),
                        (#[trigger] out@[j]).commands,
                    ) && out@[j] == (PaneFrame { commands: out@[j].commands, ..origs[j] }),
            decreases n - i,
        {
            proof {
                assert(origs.skip(i as int)[0] == origs[i as int]);
            }
            let pane = rest.remove(0);
            let PaneFrame {
                pane_id,
                is_active,
                bounds,
                command_hash,
                cache_key,
                commands,
                last_execution_stats,
                skip_streak,
            } = pane;
            let new_commands = f(&commands);
            out.push(
                PaneFrame {
                    pane_id,
                    is_active,
                    bounds,
                    command_hash,
                    cache_key,
                    commands: new_commands,
                    last_execution_stats,
                    skip_streak,
                },
            );
            proof {
                assert(rest@ =~= origs.skip(i as int + 1));
            }
            i = i + 1;
        }
        Frame { background, panes: out, chrome }
    }
}

} // verus!
