use framebuffer::Canvas;
use framebuffer::Color;
use framebuffer::FrameBuffer;
use framebuffer::GraphicBuffer;
use framebuffer::StencilBuffer;

fn color_canvas(width: u32, height: u32) -> Canvas<Color, FrameBuffer> {
    let buffer = FrameBuffer::new(width, height);
    Canvas::new(buffer, Color::white(), Color::black())
}

#[test]
fn painter_state_is_consumed_at_call_time() {
    let mut gfx = color_canvas(4, 4);
    gfx.set_fill(Color::rgb(1, 1, 1));
    gfx.fill_point(0, 0);
    gfx.set_fill(Color::rgb(2, 2, 2));
    gfx.fill_point(1, 0);
    gfx.set_stroke(Color::rgb(3, 3, 3));
    gfx.stroke_point(2, 0);
    assert_eq!(gfx.get_point(0, 0), Some(Color::rgb(1, 1, 1)));
    assert_eq!(gfx.get_point(1, 0), Some(Color::rgb(2, 2, 2)));
    assert_eq!(gfx.get_point(2, 0), Some(Color::rgb(3, 3, 3)));
}

#[test]
fn canvas_reports_buffer_dimensions() {
    let gfx = color_canvas(6, 8);
    assert_eq!(gfx.width(), 6);
    assert_eq!(gfx.height(), 8);
}

#[test]
fn canvas_buffer_accessor_reaches_the_buffer() {
    let mut gfx = color_canvas(2, 2);
    let mut out: Vec<u8> = Vec::new();
    gfx.buffer().write(&mut out).unwrap();
    let mut expected = b"P6\n2 2\n255\n".to_vec();
    expected.extend(std::iter::repeat(0u8).take(12));
    assert_eq!(out, expected);
}

#[test]
fn fill_rect_paints_exactly_the_rectangle() {
    let mut gfx = color_canvas(10, 10);
    gfx.set_fill(Color::white());
    gfx.fill_rect(2, 2, 3, 3);
    let mut white = 0;
    let mut black = 0;
    for y in 0..10 {
        for x in 0..10 {
            let c = gfx.get_point(x, y).unwrap();
            let inside = (2..5).contains(&x) && (2..5).contains(&y);
            if inside {
                assert_eq!(c, Color::white());
                white += 1;
            } else {
                assert_eq!(c, Color::black());
                black += 1;
            }
        }
    }
    assert_eq!(white, 9);
    assert_eq!(black, 91);
}

#[test]
fn fill_rect_clips_to_the_buffer() {
    let mut gfx = color_canvas(4, 4);
    gfx.set_fill(Color::white());
    gfx.fill_rect(-2, -2, 4, 4);
    for y in 0..4 {
        for x in 0..4 {
            let expected = if x < 2 && y < 2 { Color::white() } else { Color::black() };
            assert_eq!(gfx.get_point(x, y), Some(expected));
        }
    }
}

#[test]
fn fill_covers_the_whole_buffer() {
    let mut gfx = color_canvas(3, 5);
    gfx.set_fill(Color::rgb(9, 9, 9));
    gfx.fill();
    for y in 0..5 {
        for x in 0..3 {
            assert_eq!(gfx.get_point(x, y), Some(Color::rgb(9, 9, 9)));
        }
    }
}

#[test]
fn stroke_rect_paints_only_the_border() {
    let mut gfx = color_canvas(6, 6);
    gfx.set_stroke(Color::white());
    gfx.stroke_rect(1, 1, 4, 3);
    for y in 0..6 {
        for x in 0..6 {
            let inside = (1..5).contains(&x) && (1..4).contains(&y);
            let border = inside && (x == 1 || x == 4 || y == 1 || y == 3);
            let expected = if border { Color::white() } else { Color::black() };
            assert_eq!(gfx.get_point(x, y), Some(expected), "at ({}, {})", x, y);
        }
    }
}

#[test]
fn horizontal_line_stays_on_its_row() {
    let mut gfx = color_canvas(8, 8);
    gfx.set_stroke(Color::white());
    gfx.stroke_line(0, 0, 5, 0);
    for y in 0..8 {
        for x in 0..8 {
            let expected = if y == 0 && x < 5 { Color::white() } else { Color::black() };
            assert_eq!(gfx.get_point(x, y), Some(expected), "at ({}, {})", x, y);
        }
    }
}

#[test]
fn vertical_line_stays_on_its_column() {
    let mut gfx = color_canvas(8, 8);
    gfx.set_stroke(Color::white());
    gfx.stroke_line(2, 1, 2, 4);
    for y in 0..8 {
        for x in 0..8 {
            let expected = if x == 2 && (1..4).contains(&y) {
                Color::white()
            } else {
                Color::black()
            };
            assert_eq!(gfx.get_point(x, y), Some(expected), "at ({}, {})", x, y);
        }
    }
}

#[test]
fn diagonal_line_is_eight_connected() {
    let mut gfx = color_canvas(6, 6);
    gfx.set_stroke(Color::white());
    gfx.stroke_line(0, 0, 3, 3);
    for y in 0..6 {
        for x in 0..6 {
            let expected = if x == y && x <= 3 { Color::white() } else { Color::black() };
            assert_eq!(gfx.get_point(x, y), Some(expected), "at ({}, {})", x, y);
        }
    }
}

#[test]
fn reversed_axis_aligned_line_is_empty() {
    let mut gfx = color_canvas(8, 8);
    gfx.set_stroke(Color::white());
    gfx.stroke_line(5, 0, 0, 0);
    gfx.stroke_line(2, 4, 2, 1);
    for y in 0..8 {
        for x in 0..8 {
            assert_eq!(gfx.get_point(x, y), Some(Color::black()), "at ({}, {})", x, y);
        }
    }
}

#[test]
fn reversed_diagonal_line_plots_the_same_cells() {
    let mut gfx = color_canvas(6, 6);
    gfx.set_stroke(Color::white());
    gfx.stroke_line(3, 3, 0, 0);
    for y in 0..6 {
        for x in 0..6 {
            let expected = if x == y && x <= 3 { Color::white() } else { Color::black() };
            assert_eq!(gfx.get_point(x, y), Some(expected), "at ({}, {})", x, y);
        }
    }
}

#[test]
fn one_row_stroke_rect_is_a_full_row() {
    let mut gfx = color_canvas(6, 6);
    gfx.set_stroke(Color::white());
    gfx.stroke_rect(1, 2, 4, 1);
    for y in 0..6 {
        for x in 0..6 {
            let border = y == 2 && (1..5).contains(&x);
            let expected = if border { Color::white() } else { Color::black() };
            assert_eq!(gfx.get_point(x, y), Some(expected), "at ({}, {})", x, y);
        }
    }
}

#[test]
fn one_column_stroke_rect_is_a_full_column() {
    let mut gfx = color_canvas(6, 6);
    gfx.set_stroke(Color::rgba(200, 0, 0, 128));
    gfx.stroke_rect(2, 1, 1, 4);
    // a one-cell-wide border writes each cell exactly once, so even a
    // translucent stroke composites once per cell
    let expected = ((0u32 * 127 + 200 * 128) / 255) as u8;
    for y in 0..6 {
        for x in 0..6 {
            let border = x == 2 && (1..5).contains(&y);
            let want = if border { Color::rgb(expected, 0, 0) } else { Color::black() };
            assert_eq!(gfx.get_point(x, y), Some(want), "at ({}, {})", x, y);
        }
    }
}

#[test]
fn empty_rects_draw_nothing() {
    let mut gfx = color_canvas(4, 4);
    gfx.set_fill(Color::white());
    gfx.set_stroke(Color::white());
    gfx.fill_rect(1, 1, 0, 3);
    gfx.fill_rect(1, 1, 3, -1);
    gfx.stroke_rect(1, 1, 0, 3);
    gfx.stroke_rect(1, 1, -2, -2);
    for y in 0..4 {
        for x in 0..4 {
            assert_eq!(gfx.get_point(x, y), Some(Color::black()), "at ({}, {})", x, y);
        }
    }
}

#[test]
fn tiny_filled_circles_follow_the_scanline_walk() {
    // the scanline pair of the walk is drawn after the horizontal extent
    // advances, so radii zero and one produce no spans at all
    let mut gfx = color_canvas(8, 8);
    gfx.set_fill(Color::white());
    gfx.fill_circle(4, 4, 0);
    gfx.fill_circle(4, 4, 1);
    for y in 0..8 {
        for x in 0..8 {
            assert_eq!(gfx.get_point(x, y), Some(Color::black()), "at ({}, {})", x, y);
        }
    }
}

#[test]
fn negative_radius_circles_draw_nothing() {
    let mut gfx = color_canvas(8, 8);
    gfx.set_fill(Color::white());
    gfx.set_stroke(Color::white());
    gfx.stroke_circle(4, 4, -3);
    gfx.fill_circle(4, 4, -3);
    for y in 0..8 {
        for x in 0..8 {
            assert_eq!(gfx.get_point(x, y), Some(Color::black()), "at ({}, {})", x, y);
        }
    }
}

#[test]
fn fill_line_uses_the_fill_value() {
    let mut gfx = color_canvas(8, 8);
    gfx.set_fill(Color::rgb(5, 6, 7));
    gfx.fill_line(0, 2, 4, 2);
    assert_eq!(gfx.get_point(0, 2), Some(Color::rgb(5, 6, 7)));
    assert_eq!(gfx.get_point(3, 2), Some(Color::rgb(5, 6, 7)));
    assert_eq!(gfx.get_point(4, 2), Some(Color::black()));
}

#[test]
fn degenerate_circle_plots_exactly_the_center() {
    let mut gfx = color_canvas(11, 11);
    gfx.set_stroke(Color::white());
    gfx.stroke_circle(5, 5, 0);
    for y in 0..11 {
        for x in 0..11 {
            let expected = if x == 5 && y == 5 { Color::white() } else { Color::black() };
            assert_eq!(gfx.get_point(x, y), Some(expected), "at ({}, {})", x, y);
        }
    }
}

#[test]
fn stroke_circle_radius_two() {
    let mut gfx = color_canvas(12, 12);
    gfx.set_stroke(Color::white());
    gfx.stroke_circle(5, 5, 2);
    let expected: Vec<(i64, i64)> = vec![
        (3, 5),
        (7, 5),
        (3, 6),
        (7, 6),
        (3, 4),
        (7, 4),
        (4, 7),
        (6, 7),
        (4, 3),
        (6, 3),
        (5, 7),
        (5, 3),
    ];
    for y in 0..12 {
        for x in 0..12 {
            let on = expected.contains(&(x, y));
            let want = if on { Color::white() } else { Color::black() };
            assert_eq!(gfx.get_point(x, y), Some(want), "at ({}, {})", x, y);
        }
    }
}

#[test]
fn fill_circle_radius_two() {
    let mut gfx = color_canvas(12, 12);
    gfx.set_fill(Color::white());
    gfx.fill_circle(5, 5, 2);
    let expected: Vec<(i64, i64)> = vec![
        (3, 5),
        (4, 5),
        (5, 5),
        (6, 5),
        (4, 6),
        (5, 6),
        (4, 4),
        (5, 4),
    ];
    for y in 0..12 {
        for x in 0..12 {
            let on = expected.contains(&(x, y));
            let want = if on { Color::white() } else { Color::black() };
            assert_eq!(gfx.get_point(x, y), Some(want), "at ({}, {})", x, y);
        }
    }
}

#[test]
fn circle_overhanging_the_edge_is_clipped() {
    let mut gfx = color_canvas(4, 4);
    gfx.set_stroke(Color::white());
    gfx.stroke_circle(0, 0, 2);
    assert_eq!(gfx.get_point(2, 0), Some(Color::white()));
    assert_eq!(gfx.get_point(0, 2), Some(Color::white()));
    assert_eq!(gfx.get_point(3, 3), Some(Color::black()));
}

#[test]
fn mask_with_mismatched_dimensions_is_a_no_op() {
    let mut gfx = color_canvas(5, 5);
    gfx.set_fill(Color::rgb(10, 20, 30));
    gfx.fill();
    let before = gfx.buffer().ppm_bytes();
    let stencil = StencilBuffer::new(6, 6);
    let maskgfx = Canvas::new(stencil, 0, 1);
    gfx.mask(&maskgfx, |_c: Color, _m: u8| Color::white());
    assert_eq!(gfx.buffer().ppm_bytes(), before);
}

#[test]
fn mask_applies_the_combinator_per_cell() {
    let mut gfx = color_canvas(2, 2);
    gfx.set_fill(Color::rgb(100, 150, 200));
    gfx.fill();
    let mut stencil = StencilBuffer::new(2, 2);
    stencil.put_point(1, 0, 1);
    stencil.put_point(0, 1, 2);
    stencil.put_point(1, 1, 3);
    let maskgfx = Canvas::new(stencil, 0, 1);
    gfx.mask(&maskgfx, |c: Color, m: u8| match m {
        0 => Color::black(),
        1 => c.mask(true, false, false),
        2 => c.mask(false, true, false),
        _ => c.mask(false, false, true),
    });
    assert_eq!(gfx.get_point(0, 0), Some(Color::black()));
    assert_eq!(gfx.get_point(1, 0), Some(Color::rgb(100, 0, 0)));
    assert_eq!(gfx.get_point(0, 1), Some(Color::rgb(0, 150, 0)));
    assert_eq!(gfx.get_point(1, 1), Some(Color::rgb(0, 0, 200)));
}

#[test]
fn stencil_canvas_draws_raw_bytes() {
    let stencil = StencilBuffer::new(4, 4);
    let mut maskgfx = Canvas::new(stencil, 0u8, 9u8);
    maskgfx.set_fill(7);
    maskgfx.fill_rect(0, 0, 2, 2);
    assert_eq!(maskgfx.get_point(0, 0), Some(7));
    assert_eq!(maskgfx.get_point(1, 1), Some(7));
    assert_eq!(maskgfx.get_point(2, 2), Some(0));
    maskgfx.stroke_point(3, 3);
    assert_eq!(maskgfx.get_point(3, 3), Some(9));
}

#[test]
fn translucent_fill_composites_over_existing_pixels() {
    let mut gfx = color_canvas(3, 3);
    gfx.set_fill(Color::rgb(100, 100, 100));
    gfx.fill();
    gfx.set_fill(Color::rgba(200, 200, 200, 128));
    gfx.fill_rect(0, 0, 3, 1);
    let expected = ((100u32 * 127 + 200 * 128) / 255) as u8;
    assert_eq!(
        gfx.get_point(1, 0),
        Some(Color::rgb(expected, expected, expected))
    );
    assert_eq!(gfx.get_point(1, 1), Some(Color::rgb(100, 100, 100)));
}
