use phaedra_render::arena::RenderState;
use phaedra_render::command::{LinearRgba, Rect, RenderCommand, TextureCoords};
use phaedra_render::executor::execute_frame;
use phaedra_render::frame::{ChromeFrame, Frame, PaneFrame};
use phaedra_render::hashcons::{InternTable, SliceInternTable};
use phaedra_render::plan::{quad_count_for_snapshot, CofreeContext, SectionOutcome};
use phaedra_render::draw::DrawSource;
use phaedra_render::observers::{ConfigObserver, RenderMetricsObserver, TransientRenderObserver};
use phaedra_render::termwindow::{DescribedPane, PaintError, PaneSubmission, TermWindow};

fn rect(x: i64, y: i64, w: i64, h: i64) -> Rect {
    Rect { x, y, width: w, height: h }
}

fn fill_at(layer: usize, zindex: i8, x: i64) -> RenderCommand {
    RenderCommand::FillRect {
        layer,
        zindex,
        rect: rect(x, 0, 8, 8),
        color: LinearRgba { red: 1, green: 2, blue: 3, alpha: 4 },
        hsv: None,
    }
}

fn filled_box() -> TextureCoords {
    TextureCoords { left: 0, top: 0, right: 4, bottom: 4 }
}

fn one_pane_frame(quads: usize) -> Frame {
    let mut commands = Vec::new();
    for i in 0..quads {
        commands.push(fill_at(1, 0, i as i64));
    }
    let hash = RenderCommand::content_hash(&commands);
    Frame {
        background: vec![fill_at(1, 0, -5)],
        panes: vec![PaneFrame {
            pane_id: 7,
            is_active: true,
            bounds: rect(0, 0, 64, 64),
            command_hash: hash,
            cache_key: 11,
            commands,
            last_execution_stats: None,
            skip_streak: 0,
        }],
        chrome: ChromeFrame::new(),
    }
}

#[test]
fn execute_frame_builds_three_sections() {
    let frame = one_pane_frame(3);
    let mut rs = RenderState::new();
    let prev = Vec::new();
    let plan = execute_frame(&frame, &mut rs, (64, 64), &prev, &filled_box());
    assert_eq!(plan.sections.len(), 3);
    assert!(plan.sections[0].scissor.is_none());
    assert!(plan.sections[1].scissor.is_some());
    assert!(!plan.sections[1].skippable);
    let stats = plan.sections[1].stats.unwrap();
    assert_eq!(stats.quads_emitted, 3);
    assert_eq!(stats.fills_emitted, 3);
    assert_eq!(stats.draws_emitted, 0);
    // The pane section's range covers exactly its three quads.
    let sec = &plan.sections[1];
    let start = quad_count_for_snapshot(&sec.quad_range.start, 0, 1);
    let end = quad_count_for_snapshot(&sec.quad_range.end, 0, 1);
    assert_eq!(end - start, 3);
}

#[test]
fn execute_frame_marks_skippable_on_matching_hash() {
    let frame = one_pane_frame(2);
    let mut rs = RenderState::new();
    let hash = frame.panes[0].command_hash;
    let prev = vec![(7usize, hash)];
    let plan = execute_frame(&frame, &mut rs, (64, 64), &prev, &filled_box());
    assert!(plan.sections[1].skippable);
    let other = vec![(7usize, hash ^ 1)];
    let mut rs2 = RenderState::new();
    let plan2 = execute_frame(&frame, &mut rs2, (64, 64), &other, &filled_box());
    assert!(!plan2.sections[1].skippable);
}

#[test]
fn snapshots_are_non_decreasing_within_a_frame() {
    let frame = one_pane_frame(4);
    let mut rs = RenderState::new();
    let prev = Vec::new();
    let plan = execute_frame(&frame, &mut rs, (64, 64), &prev, &filled_box());
    for sec in &plan.sections {
        for sub in 0..3usize {
            let a = quad_count_for_snapshot(&sec.quad_range.start, 0, sub);
            let b = quad_count_for_snapshot(&sec.quad_range.end, 0, sub);
            assert!(b >= a);
        }
    }
}

#[test]
fn overdraw_counts_repeated_positions() {
    let mut commands = Vec::new();
    commands.push(fill_at(1, 0, 3));
    commands.push(fill_at(1, 0, 3));
    let hash = RenderCommand::content_hash(&commands);
    let frame = Frame {
        background: Vec::new(),
        panes: vec![PaneFrame {
            pane_id: 1,
            is_active: true,
            bounds: rect(0, 0, 64, 64),
            command_hash: hash,
            cache_key: 1,
            commands,
            last_execution_stats: None,
            skip_streak: 0,
        }],
        chrome: ChromeFrame::new(),
    };
    let mut rs = RenderState::new();
    let plan = execute_frame(&frame, &mut rs, (64, 64), &Vec::new(), &filled_box());
    let stats = plan.sections[1].stats.unwrap();
    assert_eq!(stats.quads_emitted, 2);
    assert_eq!(stats.overdraw_positions, 1);
}

#[test]
fn arena_overflow_recovers_with_identical_plan() {
    // Forty quads into a side buffer of thirty-two: the pass keeps
    // going, reports the shortfall, grows to the next tile, and the
    // retried pass produces a plan with the same ranges.
    let mut commands = Vec::new();
    for i in 0..40 {
        commands.push(fill_at(0, 0, i));
    }
    let hash = RenderCommand::content_hash(&commands);
    let frame = Frame {
        background: Vec::new(),
        panes: vec![PaneFrame {
            pane_id: 2,
            is_active: true,
            bounds: rect(0, 0, 64, 64),
            command_hash: hash,
            cache_key: 2,
            commands,
            last_execution_stats: None,
            skip_streak: 0,
        }],
        chrome: ChromeFrame::new(),
    };
    let mut rs = RenderState::new();
    let plan1 = execute_frame(&frame, &mut rs, (64, 64), &Vec::new(), &filled_box());
    let grew = rs.allocated_more_quads();
    assert!(grew);
    rs.clear_quad_allocation();
    let plan2 = execute_frame(&frame, &mut rs, (64, 64), &Vec::new(), &filled_box());
    assert!(!rs.allocated_more_quads());
    assert_eq!(plan1.sections.len(), plan2.sections.len());
    for (a, b) in plan1.sections.iter().zip(plan2.sections.iter()) {
        for sub in 0..3usize {
            assert_eq!(
                quad_count_for_snapshot(&a.quad_range.start, 0, sub),
                quad_count_for_snapshot(&b.quad_range.start, 0, sub)
            );
            assert_eq!(
                quad_count_for_snapshot(&a.quad_range.end, 0, sub),
                quad_count_for_snapshot(&b.quad_range.end, 0, sub)
            );
        }
        assert_eq!(a.skippable, b.skippable);
        assert_eq!(a.content_hash, b.content_hash);
    }
    // The retried pass now has room for all forty quads.
    let end = quad_count_for_snapshot(&plan2.sections[1].quad_range.end, 0, 0);
    assert_eq!(end, 40);
}

fn submission(described: Option<DescribedPane>) -> PaneSubmission {
    PaneSubmission { pane_id: 9, cache_key: 77, is_active: true, described }
}

fn described() -> DescribedPane {
    let commands = vec![fill_at(1, 0, 0), fill_at(1, 0, 10), fill_at(1, 0, 20)];
    let command_hash = RenderCommand::content_hash(&commands);
    DescribedPane { bounds: rect(0, 0, 32, 32), command_hash, commands }
}

#[test]
fn five_frames_one_executed_four_skipped() {
    // One pane with three unchanging lines over five frames: the first
    // frame executes, the next four skip, and the overall skip rate is
    // exactly four in five.
    let mut tw = TermWindow::new(64, 64, filled_box());
    let background = Vec::new();
    let chrome = ChromeFrame::new();
    let first = vec![submission(Some(described()))];
    tw.paint_pass(&background, &first, &chrome).unwrap();
    let calls = tw.call_draw();
    assert!(!calls.is_empty());
    for _ in 0..4 {
        let again = vec![submission(None)];
        tw.paint_pass(&background, &again, &chrome).unwrap();
        let plan = tw.render_plan.as_ref().unwrap();
        assert!(plan.sections[1].skippable);
        tw.call_draw();
    }
    assert_eq!(tw.chrono.sections_processed, 5);
    assert_eq!(tw.chrono.sections_skipped, 4);
    let rate = tw.chrono.sections_skipped as f64 / tw.chrono.sections_processed as f64;
    assert!((rate - 0.8).abs() < 1e-9);
}

#[test]
fn missing_description_is_refused() {
    let mut tw = TermWindow::new(64, 64, filled_box());
    let background = Vec::new();
    let chrome = ChromeFrame::new();
    let panes = vec![submission(None)];
    let err = tw.paint_pass(&background, &panes, &chrome);
    assert_eq!(err, Err(PaintError::MissingDescription { pane_id: 9 }));
    assert!(tw.render_plan.is_none());
}

#[test]
fn changed_cache_key_executes_again() {
    let mut tw = TermWindow::new(64, 64, filled_box());
    let background = Vec::new();
    let chrome = ChromeFrame::new();
    let first = vec![submission(Some(described()))];
    tw.paint_pass(&background, &first, &chrome).unwrap();
    tw.call_draw();
    let mut changed = submission(Some(described()));
    changed.cache_key = 78;
    tw.paint_pass(&background, &vec![changed], &chrome).unwrap();
    let plan = tw.render_plan.as_ref().unwrap();
    assert!(!plan.sections[1].skippable);
    assert_eq!(tw.chrono.sections_skipped, 0);
}

#[test]
fn cofree_context_tracks_streaks() {
    let mut ctx = CofreeContext::new();
    ctx.advance(SectionOutcome::Skipped);
    ctx.advance(SectionOutcome::Skipped);
    assert_eq!(ctx.skip_streak, 2);
    ctx.advance(SectionOutcome::Executed {
        stats: phaedra_render::plan::ExecutionStats {
            quads_emitted: 5,
            fills_emitted: 5,
            draws_emitted: 0,
            overdraw_positions: 0,
        },
    });
    assert_eq!(ctx.skip_streak, 0);
    assert_eq!(ctx.total_quads_emitted, 5);
    assert_eq!(ctx.sections_processed, 3);
    assert_eq!(ctx.sections_skipped, 2);
}

#[test]
fn intern_returns_matching_fingerprints() {
    let mut table = InternTable::new();
    let a = table.intern(fill_at(1, 0, 5));
    let b = table.intern(fill_at(1, 0, 5));
    assert_eq!(a.hash_value(), b.hash_value());
    let c = table.intern(fill_at(1, 0, 6));
    assert_ne!(a.hash_value(), c.hash_value());
}

#[test]
fn intern_slice_returns_matching_fingerprints() {
    let mut table = SliceInternTable::new();
    let a = table.intern_slice(vec![fill_at(1, 0, 5), fill_at(1, 0, 6)]);
    let b = table.intern_slice(vec![fill_at(1, 0, 5), fill_at(1, 0, 6)]);
    assert_eq!(a.hash_value(), b.hash_value());
    assert_eq!(
        a.hash_value(),
        RenderCommand::content_hash(&[fill_at(1, 0, 5), fill_at(1, 0, 6)])
    );
}

#[test]
fn prev_cursor_pos_reports_last_bump() {
    let mut pos = phaedra_render::prevcursor::PrevCursorPos::new();
    pos.bump();
    let _ = pos.last_cursor_movement();
}

#[test]
fn settings_defaults() {
    assert!(!phaedra_render::settings::running_under_wsl());
    assert_eq!(phaedra_render::settings::default_read_timeout(), 60);
    assert_eq!(phaedra_render::settings::default_write_timeout(), 60);
    assert_eq!(
        phaedra_render::settings::default_local_echo_threshold_ms(),
        Some(100)
    );
    let req = phaedra_render::settings::PathPossibility::required(String::from("a"));
    assert!(req.is_required);
    let opt = phaedra_render::settings::PathPossibility::optional(String::from("b"));
    assert!(!opt.is_required);
    assert_eq!(phaedra_render::version::phaedra_version(), "dev");
    assert!(!phaedra_render::version::phaedra_target_triple().is_empty());
}

#[test]
fn skipped_pane_keeps_its_range_length() {
    // With an unchanged fingerprint and valid retained buffers, the
    // pane's quad range on the next frame spans exactly as many quads as
    // on the previous frame.
    let mut tw = TermWindow::new(64, 64, filled_box());
    let background = Vec::new();
    let chrome = ChromeFrame::new();
    tw.paint_pass(&background, &vec![submission(Some(described()))], &chrome)
        .unwrap();
    let first_plan_delta = {
        let plan = tw.render_plan.as_ref().unwrap();
        let sec = &plan.sections[1];
        quad_count_for_snapshot(&sec.quad_range.end, 0, 1)
            - quad_count_for_snapshot(&sec.quad_range.start, 0, 1)
    };
    tw.call_draw();
    tw.paint_pass(&background, &vec![submission(None)], &chrome)
        .unwrap();
    let second_plan_delta = {
        let plan = tw.render_plan.as_ref().unwrap();
        let sec = &plan.sections[1];
        assert!(sec.skippable);
        quad_count_for_snapshot(&sec.quad_range.end, 0, 1)
            - quad_count_for_snapshot(&sec.quad_range.start, 0, 1)
    };
    assert_eq!(first_plan_delta, 3);
    assert_eq!(second_plan_delta, first_plan_delta);
}

#[test]
fn empty_frame_still_builds_a_plan() {
    let mut tw = TermWindow::new(64, 64, filled_box());
    let background = Vec::new();
    let chrome = ChromeFrame::new();
    tw.paint_pass(&background, &Vec::new(), &chrome).unwrap();
    let plan = tw.render_plan.as_ref().unwrap();
    assert_eq!(plan.sections.len(), 2);
    let calls = tw.call_draw();
    assert!(calls.is_empty());
}

#[test]
fn observers_reflect_window_state() {
    let tw = TermWindow::new(64, 64, filled_box());
    assert_eq!(tw.config().max_fps, 60);
    assert_eq!(tw.render_metrics().cell_width, 8);
    assert_eq!(tw.shape_generation(), 0);
    assert!(matches!(
        tw.allow_images(),
        phaedra_render::termwindow::AllowImage::Yes
    ));
}

#[test]
fn skipped_sections_draw_from_the_previous_frame() {
    let mut tw = TermWindow::new(64, 64, filled_box());
    let background = Vec::new();
    let chrome = ChromeFrame::new();
    tw.paint_pass(&background, &vec![submission(Some(described()))], &chrome)
        .unwrap();
    let first_calls = tw.call_draw();
    assert!(first_calls
        .iter()
        .all(|c| c.source == DrawSource::CurrentFrame));
    tw.paint_pass(&background, &vec![submission(None)], &chrome)
        .unwrap();
    let second_calls = tw.call_draw();
    assert!(second_calls
        .iter()
        .any(|c| c.source == DrawSource::PreviousFrame));
}

#[test]
fn scissor_floors_origin_and_clamps_edges() {
    // The origin is only floored at zero; the far edges are clamped into
    // the viewport, so a pane outside the viewport gets a zero size.
    let r = phaedra_render::plan::ScissorRect::from_pane_bounds(&rect(-10, 5, 30, 100), 64, 48);
    assert_eq!(r.x, 0);
    assert_eq!(r.y, 5);
    assert_eq!(r.width, 20);
    assert_eq!(r.height, 43);
    let off = phaedra_render::plan::ScissorRect::from_pane_bounds(&rect(100, 100, 10, 10), 64, 48);
    assert_eq!(off.x, 100);
    assert_eq!(off.y, 100);
    assert_eq!(off.width, 0);
    assert_eq!(off.height, 0);
}

#[test]
fn paint_with_retry_grows_and_converges() {
    // Forty fills into a side buffer of thirty-two overflow on the first
    // pass; the retry grows the slot and the second pass fits.
    let mut tw = TermWindow::new(64, 64, filled_box());
    let mut commands = Vec::new();
    for i in 0..40 {
        commands.push(fill_at(0, 0, i));
    }
    let command_hash = RenderCommand::content_hash(&commands);
    let panes = vec![PaneSubmission {
        pane_id: 3,
        cache_key: 5,
        is_active: true,
        described: Some(DescribedPane { bounds: rect(0, 0, 64, 64), command_hash, commands }),
    }];
    let background = Vec::new();
    let chrome = ChromeFrame::new();
    let complete = tw
        .paint_with_retry(&background, &panes, &chrome, 4)
        .unwrap();
    assert!(complete);
    let plan = tw.render_plan.as_ref().unwrap();
    let end = quad_count_for_snapshot(&plan.sections[1].quad_range.end, 0, 0);
    assert_eq!(end, 40);
}

#[test]
fn paint_with_retry_reports_missing_descriptions() {
    let mut tw = TermWindow::new(64, 64, filled_box());
    let background = Vec::new();
    let chrome = ChromeFrame::new();
    let panes = vec![submission(None)];
    let err = tw.paint_with_retry(&background, &panes, &chrome, 2);
    assert_eq!(err, Err(PaintError::MissingDescription { pane_id: 9 }));
}

#[test]
fn draw_calls_come_in_depth_then_slot_order() {
    // Quads on depths -1, 0 and 2: the draw calls must come back in
    // increasing depth order, and in slot order within a depth.
    let mut tw = TermWindow::new(64, 64, filled_box());
    let commands = vec![
        fill_at(1, 2, 0),
        fill_at(0, 0, 8),
        fill_at(2, -1, 16),
    ];
    let command_hash = RenderCommand::content_hash(&commands);
    let panes = vec![PaneSubmission {
        pane_id: 4,
        cache_key: 6,
        is_active: true,
        described: Some(DescribedPane { bounds: rect(0, 0, 64, 64), command_hash, commands }),
    }];
    let background = Vec::new();
    let chrome = ChromeFrame::new();
    tw.paint_pass(&background, &panes, &chrome).unwrap();
    let calls = tw.call_draw();
    assert_eq!(calls.len(), 3);
    for pair in calls.windows(2) {
        assert!(
            pair[0].zindex < pair[1].zindex
                || (pair[0].zindex == pair[1].zindex && pair[0].sub_idx <= pair[1].sub_idx)
        );
    }
    assert_eq!(calls[0].zindex, -1);
    assert_eq!(calls[1].zindex, 0);
    assert_eq!(calls[2].zindex, 2);
}
