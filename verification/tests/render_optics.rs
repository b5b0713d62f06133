use phaedra_render::command::{
    HsbTransform, LinearRgba, QuadMode, Rect, RenderCommand, TextureCoords,
};
use phaedra_render::frame::{ChromeFrame, Frame, PaneFrame};
use phaedra_render::optics::{
    AllPanes, AsFillRect, Compose, DeepCommands, Lens, PaneBounds, PaneCommands, Prism, Traversal,
};

fn rect(x: i64, y: i64, w: i64, h: i64) -> Rect {
    Rect { x, y, width: w, height: h }
}

fn color(r: u16, g: u16, b: u16, a: u16) -> LinearRgba {
    LinearRgba { red: r, green: g, blue: b, alpha: a }
}

fn draw_quad(x: i64) -> RenderCommand {
    RenderCommand::DrawQuad {
        layer: 0,
        zindex: 0,
        position: rect(x, 0, 1, 1),
        texture: TextureCoords { left: 0, top: 0, right: 1, bottom: 1 },
        fg_color: color(1, 1, 1, 1),
        alt_color: None,
        hsv: None,
        mode: QuadMode::Glyph,
    }
}

fn fill_rect() -> RenderCommand {
    RenderCommand::FillRect {
        layer: 1,
        zindex: 2,
        rect: rect(1, 2, 3, 4),
        color: color(2, 3, 4, 1),
        hsv: Some(HsbTransform { hue: 10, saturation: 8, brightness: 9 }),
    }
}

fn pane(id: usize, commands: Vec<RenderCommand>) -> PaneFrame {
    PaneFrame {
        pane_id: id,
        is_active: true,
        bounds: rect(0, 0, 10, 10),
        command_hash: 0,
        cache_key: 0,
        commands,
        last_execution_stats: None,
        skip_streak: 0,
    }
}

fn frame_with_panes(panes: Vec<PaneFrame>) -> Frame {
    Frame { background: Vec::new(), panes, chrome: ChromeFrame::new() }
}

#[test]
fn lens_view_over_roundtrip() {
    let optic = PaneBounds;
    let original = pane(7, Vec::new());
    let viewed = *optic.view(&original);
    let original_again = pane(7, Vec::new());
    let shifted = optic.over(original_again, |bounds: Rect| Rect {
        x: bounds.x + 2,
        y: bounds.y + 3,
        width: bounds.width,
        height: bounds.height,
    });
    assert_eq!(optic.view(&shifted).x, viewed.x + 2);
    assert_eq!(optic.view(&shifted).y, viewed.y + 3);
    let roundtrip = optic.over(shifted, |_| viewed);
    assert_eq!(*optic.view(&roundtrip), viewed);
    assert_eq!(roundtrip.pane_id, original.pane_id);
}

#[test]
fn prism_preview_review_roundtrip() {
    let prism = AsFillRect;
    let command = fill_rect();
    let fields = prism.preview(&command).expect("expected FillRect fields");
    let rebuilt = prism.review(fields);
    match rebuilt {
        RenderCommand::FillRect { layer, zindex, rect, color, hsv } => {
            assert_eq!(layer, fields.layer);
            assert_eq!(zindex, fields.zindex);
            assert_eq!(rect, fields.rect);
            assert_eq!(color, fields.color);
            let rebuilt_hsv = hsv.map(|v| (v.hue, v.saturation, v.brightness));
            let fields_hsv = fields.hsv.as_ref().map(|v| (v.hue, v.saturation, v.brightness));
            assert_eq!(rebuilt_hsv, fields_hsv);
        }
        _ => panic!("expected FillRect command"),
    }
}

#[test]
fn traversal_fold_counts_draw_quads_in_frame() {
    let pane_a = pane(
        1,
        vec![
            draw_quad(1),
            RenderCommand::Batch(vec![draw_quad(2), RenderCommand::Batch(vec![draw_quad(3)])]),
            fill_rect(),
        ],
    );
    let pane_b = pane(2, vec![fill_rect()]);
    let frame = frame_with_panes(vec![pane_a, pane_b]);
    let all_panes = AllPanes;
    let pane_commands = PaneCommands;
    let deep = DeepCommands;
    let count_quads = |inner: usize, command: &RenderCommand| {
        if matches!(command, RenderCommand::DrawQuad { .. }) {
            inner + 1
        } else {
            inner
        }
    };
    let per_pane =
        |acc: usize, p: &PaneFrame| deep.fold(pane_commands.view(p), acc, &count_quads);
    let count = all_panes.fold(&frame, 0usize, &per_pane);
    assert_eq!(count, 3);
}

#[test]
fn composed_all_panes_pane_commands_and_deep_commands() {
    let pane_a = pane(
        1,
        vec![draw_quad(1), RenderCommand::Batch(vec![draw_quad(4), fill_rect()])],
    );
    let pane_b = pane(2, vec![RenderCommand::Batch(vec![draw_quad(7)])]);
    let frame = frame_with_panes(vec![pane_a, pane_b]);
    let outer = Compose(AllPanes, PaneCommands);
    let deep = DeepCommands;
    let shift = |command: &RenderCommand| match command {
        RenderCommand::DrawQuad {
            layer,
            zindex,
            position,
            texture,
            fg_color,
            alt_color,
            hsv,
            mode,
        } => RenderCommand::DrawQuad {
            layer: *layer,
            zindex: *zindex,
            position: Rect {
                x: position.x + 10,
                y: position.y,
                width: position.width,
                height: position.height,
            },
            texture: *texture,
            fg_color: *fg_color,
            alt_color: *alt_color,
            hsv: *hsv,
            mode: *mode,
        },
        other => other.clone(),
    };
    let lift = |commands: &Vec<RenderCommand>| deep.traverse(commands.clone(), &shift);
    let transformed = outer.traverse(frame, &lift);
    let sum = |acc: i64, command: &RenderCommand| match command {
        RenderCommand::DrawQuad { position, .. } => acc + position.x,
        _ => acc,
    };
    let mut sum_x = 0i64;
    for p in &transformed.panes {
        sum_x = deep.fold(&p.commands, sum_x, &sum);
    }
    assert_eq!(sum_x, 42);
}
