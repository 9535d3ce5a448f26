use pendulum_sim::render_export::{
    clear_frame, draw_line, draw_pendulum, draw_pixel, frame_action, render_frame, sample_indices,
    should_close, FramePoll, RenderAction, RenderExportConfig, BACKGROUND_COLOR, BOB_COLOR,
    ROD1_COLOR, ROD2_COLOR,
};

fn lit(width: usize, buffer: &[u32], color: u32) -> Vec<(usize, usize)> {
    let mut out = Vec::new();
    for (i, c) in buffer.iter().enumerate() {
        if *c == color {
            out.push((i % width, i / width));
        }
    }
    out
}

#[test]
fn render_export_config_default_is_ten() {
    assert_eq!(RenderExportConfig::default().n, 10);
}

#[test]
fn draw_pixel_inside_frame() {
    let mut buf = vec![0u32; 6];
    draw_pixel(&mut buf, 3, 2, 2, 1, 7);
    assert_eq!(buf, vec![0, 0, 0, 0, 0, 7]);
}

#[test]
fn draw_pixel_outside_frame_is_clipped() {
    let mut buf = vec![0u32; 6];
    draw_pixel(&mut buf, 3, 2, 3, 0, 7);
    draw_pixel(&mut buf, 3, 2, -1, 0, 7);
    draw_pixel(&mut buf, 3, 2, 0, 2, 7);
    draw_pixel(&mut buf, 3, 2, 0, -5, 7);
    assert_eq!(buf, vec![0u32; 6]);
}

#[test]
fn draw_line_shallow() {
    let mut buf = vec![0u32; 8];
    draw_line(&mut buf, 4, 2, 0, 0, 3, 1, 9);
    assert_eq!(buf, vec![9, 9, 0, 0, 0, 0, 9, 9]);
}

#[test]
fn draw_line_reverse_diagonal() {
    let mut buf = vec![0u32; 16];
    draw_line(&mut buf, 4, 4, 3, 3, 0, 0, 5);
    assert_eq!(lit(4, &buf, 5), vec![(0, 0), (1, 1), (2, 2), (3, 3)]);
}

#[test]
fn draw_line_steep() {
    let mut buf = vec![0u32; 15];
    draw_line(&mut buf, 3, 5, 1, 4, 2, 0, 4);
    assert_eq!(lit(3, &buf, 4), vec![(2, 0), (2, 1), (1, 2), (1, 3), (1, 4)]);
}

#[test]
fn draw_line_clips_outside_pixels() {
    let mut buf = vec![0u32; 8];
    draw_line(&mut buf, 4, 2, -2, 1, 3, 1, 1);
    assert_eq!(buf, vec![0, 0, 0, 0, 1, 1, 1, 1]);
}

#[test]
fn draw_line_single_point() {
    let mut buf = vec![0u32; 9];
    draw_line(&mut buf, 3, 3, 1, 1, 1, 1, 3);
    assert_eq!(buf, vec![0, 0, 0, 0, 3, 0, 0, 0, 0]);
}

#[test]
fn draw_line_has_one_pixel_per_major_step() {
    // a line over 6 columns and 1 row lights 7 pixels, both endpoints included
    let mut buf = vec![0u32; 14];
    draw_line(&mut buf, 7, 2, 0, 0, 6, 1, 2);
    let pts = lit(7, &buf, 2);
    assert_eq!(pts, vec![(0, 0), (1, 0), (2, 0), (3, 0), (4, 1), (5, 1), (6, 1)]);
}

#[test]
fn draw_line_keeps_other_pixels() {
    let mut buf = vec![8u32; 9];
    draw_line(&mut buf, 3, 3, 0, 0, 2, 0, 1);
    assert_eq!(buf, vec![1, 1, 1, 8, 8, 8, 8, 8, 8]);
}

#[test]
fn clear_frame_sets_every_pixel() {
    let mut buf = vec![1u32, 2, 3, 4];
    clear_frame(&mut buf, BACKGROUND_COLOR);
    assert_eq!(buf, vec![BACKGROUND_COLOR; 4]);
}

#[test]
fn draw_pendulum_rods_and_bob() {
    let mut buf = vec![0u32; 25];
    draw_pendulum(&mut buf, 5, 5, (2, 0), (2, 2), (4, 2));
    assert_eq!(lit(5, &buf, ROD1_COLOR), vec![(2, 0), (2, 1)]);
    assert_eq!(lit(5, &buf, ROD2_COLOR), vec![(2, 2), (3, 2)]);
    assert_eq!(lit(5, &buf, BOB_COLOR), vec![(4, 2)]);
}

#[test]
fn render_frame_clears_then_draws() {
    let mut buf = vec![7u32; 25];
    render_frame(&mut buf, 5, 5, (0, 0), &vec![((0, 2), (0, 4)), ((2, 0), (4, 0))]);
    assert_eq!(lit(5, &buf, ROD1_COLOR), vec![(0, 0), (1, 0), (0, 1)]);
    assert_eq!(lit(5, &buf, ROD2_COLOR), vec![(2, 0), (3, 0), (0, 2), (0, 3)]);
    assert_eq!(lit(5, &buf, BOB_COLOR), vec![(4, 0), (0, 4)]);
    assert_eq!(lit(5, &buf, BACKGROUND_COLOR).len(), 25 - 9);
    assert!(!buf.contains(&7));
}

#[test]
fn sample_indices_spread_over_frame() {
    assert_eq!(sample_indices(3, 10), vec![0, 3, 6]);
    assert_eq!(sample_indices(10, 10), (0..10).collect::<Vec<usize>>());
}

#[test]
fn sample_indices_fewer_pendulums_than_requested() {
    assert_eq!(sample_indices(4, 2), vec![0, 1, 1, 1]);
    assert_eq!(sample_indices(5, 1), vec![0, 0, 0, 0, 0]);
}

#[test]
fn sample_indices_in_bounds_and_distinct() {
    for total in 1..40usize {
        for n in 1..=total {
            let idx = sample_indices(n, total);
            assert_eq!(idx.len(), n);
            for w in idx.windows(2) {
                assert!(w[0] < w[1]);
            }
            assert!(*idx.last().unwrap() < total);
        }
    }
}

#[test]
fn should_close_cases() {
    assert!(!should_close(false, true, false));
    assert!(should_close(true, true, false));
    assert!(should_close(false, false, false));
    assert!(should_close(false, true, true));
}

#[test]
fn frame_action_cases() {
    assert_eq!(frame_action(FramePoll::Frame(5)), RenderAction::Draw);
    assert_eq!(frame_action(FramePoll::Frame(0)), RenderAction::Skip);
    assert_eq!(frame_action(FramePoll::Empty { abandoned: false }), RenderAction::Wait);
    assert_eq!(frame_action(FramePoll::Empty { abandoned: true }), RenderAction::Exit);
}

#[test]
fn draw_line_laws_on_a_grid_of_lines() {
    let (w, h) = (9usize, 9usize);
    for (x0, y0) in [(4i32, 4i32), (0, 0), (8, 3)] {
        for x1 in 0..9i32 {
            for y1 in 0..9i32 {
                let mut buf = vec![0u32; w * h];
                draw_line(&mut buf, w, h, x0, y0, x1, y1, 1);
                let pts = lit(w, &buf, 1);
                let dx = (x1 - x0).unsigned_abs() as usize;
                let dy = (y1 - y0).unsigned_abs() as usize;
                // one pixel per step along the longer axis, endpoints included
                assert_eq!(pts.len(), dx.max(dy) + 1);
                assert_eq!(buf[y0 as usize * w + x0 as usize], 1);
                assert_eq!(buf[y1 as usize * w + x1 as usize], 1);
                // every lit pixel lies in the bounding box of the endpoints
                for (x, y) in pts {
                    assert!(x as i32 >= x0.min(x1) && x as i32 <= x0.max(x1));
                    assert!(y as i32 >= y0.min(y1) && y as i32 <= y0.max(y1));
                }
            }
        }
    }
}
