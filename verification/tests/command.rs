use phaedra_render::command::{
    HsbTransform, LinearRgba, QuadMode, Rect, RenderCommand, TextureCoords,
};

fn rect(x: i64, y: i64, w: i64, h: i64) -> Rect {
    Rect { x, y, width: w, height: h }
}

fn color(r: u16, g: u16, b: u16, a: u16) -> LinearRgba {
    LinearRgba { red: r, green: g, blue: b, alpha: a }
}

fn fill(x: i64, y: i64, w: i64, h: i64) -> RenderCommand {
    RenderCommand::FillRect {
        layer: 1,
        zindex: 2,
        rect: rect(x, y, w, h),
        color: color(9, 9, 9, 1),
        hsv: None,
    }
}

#[test]
fn clip_fill_rect_intersecting() {
    // A fill at depth 2 with rect (10,10,20,20) clipped against
    // (0,0,15,15) keeps the overlapping (10,10,5,5) part.
    let cmd = fill(10, 10, 20, 20);
    let clip = rect(0, 0, 15, 15);
    match cmd.clip_to_rect(&clip) {
        RenderCommand::FillRect { rect: r, zindex, .. } => {
            assert_eq!(zindex, 2);
            assert_eq!(r, rect(10, 10, 5, 5));
        }
        _ => panic!("expected FillRect"),
    }
}

#[test]
fn clip_fill_rect_disjoint_is_nop() {
    let cmd = fill(10, 10, 20, 20);
    let clip = rect(100, 100, 10, 10);
    assert!(matches!(cmd.clip_to_rect(&clip), RenderCommand::Nop));
}

#[test]
fn clip_draw_quad_reprojects_texture() {
    let cmd = RenderCommand::DrawQuad {
        layer: 0,
        zindex: 0,
        position: rect(0, 0, 10, 10),
        texture: TextureCoords { left: 0, top: 0, right: 100, bottom: 100 },
        fg_color: color(1, 1, 1, 1),
        alt_color: None,
        hsv: None,
        mode: QuadMode::Glyph,
    };
    let clip = rect(5, 0, 10, 10);
    match cmd.clip_to_rect(&clip) {
        RenderCommand::DrawQuad { position, texture, .. } => {
            assert_eq!(position, rect(5, 0, 5, 10));
            assert_eq!(texture.left, 50);
            assert_eq!(texture.right, 100);
            assert_eq!(texture.top, 0);
            assert_eq!(texture.bottom, 100);
        }
        _ => panic!("expected DrawQuad"),
    }
}

#[test]
fn clip_prunes_empty_batches() {
    let cmd = RenderCommand::Batch(vec![fill(10, 10, 20, 20), fill(40, 40, 5, 5)]);
    let clip = rect(100, 100, 10, 10);
    assert!(matches!(cmd.clip_to_rect(&clip), RenderCommand::Nop));
}

#[test]
fn content_hash_is_deterministic() {
    let a = vec![fill(1, 2, 3, 4), fill(5, 6, 7, 8)];
    let b = vec![fill(1, 2, 3, 4), fill(5, 6, 7, 8)];
    assert_eq!(
        RenderCommand::content_hash(&a),
        RenderCommand::content_hash(&b)
    );
}

#[test]
fn content_hash_changes_when_leaves_reorder() {
    let a = vec![fill(1, 2, 3, 4), fill(5, 6, 7, 8)];
    let b = vec![fill(5, 6, 7, 8), fill(1, 2, 3, 4)];
    assert_ne!(
        RenderCommand::content_hash(&a),
        RenderCommand::content_hash(&b)
    );
}

#[test]
fn content_hash_flattens_batches() {
    // A batch hashes its children, not its own identity.
    let flat = vec![fill(1, 2, 3, 4), fill(5, 6, 7, 8)];
    let nested = vec![RenderCommand::Batch(vec![fill(1, 2, 3, 4), fill(5, 6, 7, 8)])];
    assert_eq!(
        RenderCommand::content_hash(&flat),
        RenderCommand::content_hash(&nested)
    );
}

#[test]
fn map_colors_rewrites_every_leaf() {
    let cmd = RenderCommand::Batch(vec![
        RenderCommand::Clear { color: color(1, 1, 1, 1) },
        fill(0, 0, 4, 4),
    ]);
    let doubled = cmd.map_colors(&|c: LinearRgba| LinearRgba {
        red: c.red * 2,
        green: c.green,
        blue: c.blue,
        alpha: c.alpha,
    });
    match doubled {
        RenderCommand::Batch(children) => {
            match &children[0] {
                RenderCommand::Clear { color: c } => assert_eq!(c.red, 2),
                _ => panic!("expected Clear"),
            }
            match &children[1] {
                RenderCommand::FillRect { color: c, .. } => assert_eq!(c.red, 18),
                _ => panic!("expected FillRect"),
            }
        }
        _ => panic!("expected Batch"),
    }
}

#[test]
fn fold_flattens_batches() {
    let cmd = RenderCommand::Batch(vec![
        fill(0, 0, 1, 1),
        RenderCommand::Batch(vec![fill(0, 0, 1, 1), RenderCommand::Nop]),
    ]);
    let count = cmd.fold(0usize, &|acc: usize, c: &RenderCommand| {
        if matches!(c, RenderCommand::FillRect { .. }) {
            acc + 1
        } else {
            acc
        }
    });
    assert_eq!(count, 2);
}

#[test]
fn and_then_applies_the_rewrite() {
    let cmd = fill(0, 0, 1, 1);
    let out = cmd.and_then(|_| RenderCommand::Nop);
    assert!(matches!(out, RenderCommand::Nop));
}

#[test]
fn hash_value_matches_singleton_list() {
    let cmd = fill(3, 3, 3, 3);
    let h = cmd.hash_value_of();
    let list = vec![fill(3, 3, 3, 3)];
    assert_eq!(h, RenderCommand::content_hash(&list));
}
