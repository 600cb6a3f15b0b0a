use polygons_rust::colors::Color;
use polygons_rust::framebuffer::Framebuffer;
use polygons_rust::line::draw_polygon;
use polygons_rust::line::fill_polygon;
use polygons_rust::line::fill_polygon_with_hole;
use polygons_rust::vertex::Vertex;

fn all_background(fb: &Framebuffer, bg: Color) -> bool {
    for y in 0..fb.height {
        for x in 0..fb.width {
            if fb.get_color_at(x, y) != Some(bg) {
                return false;
            }
        }
    }
    true
}

#[test]
fn test_vertex_new() {
    let v = Vertex::new(3, -7);
    assert_eq!(v.x, 3);
    assert_eq!(v.y, -7);
}

#[test]
fn test_degenerate_polygon_is_noop() {
    let mut fb = Framebuffer::new(10, 10, false);
    let black = Color::new(0, 0, 0);
    let two = vec![Vertex::new(1, 1), Vertex::new(8, 8)];
    fill_polygon(&mut fb, &two, Color::from_hex(0xFF0000));
    draw_polygon(&mut fb, &two);
    assert!(all_background(&fb, black));
}

#[test]
fn test_line_diagonal() {
    let mut fb = Framebuffer::new(5, 5, false);
    fb.set_current_color(0xFF0000);
    polygons_rust::line::line(&mut fb, Vertex::new(0, 0), Vertex::new(3, 3));
    let red = Color::from_hex(0xFF0000);
    let black = Color::new(0, 0, 0);
    for y in 0..5usize {
        for x in 0..5usize {
            let expected = if x == y && x <= 3 { red } else { black };
            assert_eq!(fb.get_color_at(x, y), Some(expected));
        }
    }
}

#[test]
fn test_line_degenerate_paints_one_cell() {
    let mut fb = Framebuffer::new(4, 4, false);
    fb.set_current_color(0x00FF00);
    polygons_rust::line::line(&mut fb, Vertex::new(2, 1), Vertex::new(2, 1));
    let green = Color::from_hex(0x00FF00);
    let black = Color::new(0, 0, 0);
    for y in 0..4usize {
        for x in 0..4usize {
            let expected = if x == 2 && y == 1 { green } else { black };
            assert_eq!(fb.get_color_at(x, y), Some(expected));
        }
    }
}

#[test]
fn test_line_outside_surface_is_noop() {
    let mut fb = Framebuffer::new(4, 4, false);
    fb.set_current_color(0xFF0000);
    polygons_rust::line::line(&mut fb, Vertex::new(-5, -3), Vertex::new(-1, -1));
    assert!(all_background(&fb, Color::new(0, 0, 0)));
}

#[test]
fn test_draw_polygon_outline() {
    let mut fb = Framebuffer::new(6, 6, false);
    fb.set_current_color(0xFFFFFF);
    let square = vec![
        Vertex::new(1, 1),
        Vertex::new(4, 1),
        Vertex::new(4, 4),
        Vertex::new(1, 4),
    ];
    draw_polygon(&mut fb, &square);
    let white = Color::from_hex(0xFFFFFF);
    let black = Color::new(0, 0, 0);
    for y in 0..6usize {
        for x in 0..6usize {
            let on_border = (1..=4).contains(&x) && (1..=4).contains(&y)
                && (x == 1 || x == 4 || y == 1 || y == 4);
            let expected = if on_border { white } else { black };
            assert_eq!(fb.get_color_at(x, y), Some(expected), "at ({}, {})", x, y);
        }
    }
}

#[test]
fn test_fill_square_exact() {
    let mut fb = Framebuffer::new(30, 30, false);
    let square = vec![
        Vertex::new(10, 10),
        Vertex::new(20, 10),
        Vertex::new(20, 20),
        Vertex::new(10, 20),
    ];
    let red = Color::from_hex(0xFF0000);
    fill_polygon(&mut fb, &square, red);
    let black = Color::new(0, 0, 0);
    for y in 0..30usize {
        for x in 0..30usize {
            // the crossing test is strict below the scanline, so the row of
            // the lowest vertices stays empty and the filled rows are 11..=20
            let inside = (10..=20).contains(&x) && (11..=20).contains(&y);
            let expected = if inside { red } else { black };
            assert_eq!(fb.get_color_at(x, y), Some(expected), "at ({}, {})", x, y);
        }
    }
}

#[test]
fn test_fill_triangle_stays_inside_bounding_box() {
    let mut fb = Framebuffer::new(20, 20, false);
    let tri = vec![Vertex::new(2, 2), Vertex::new(12, 2), Vertex::new(7, 12)];
    let blue = Color::from_hex(0x0000FF);
    fill_polygon(&mut fb, &tri, blue);
    for y in 0..20usize {
        for x in 0..20usize {
            let c = fb.get_color_at(x, y).unwrap();
            if c == blue {
                assert!((2..=12).contains(&x) && (2..=12).contains(&y));
            }
        }
    }
    // a row through the middle of the triangle is filled between its edges
    assert_eq!(fb.get_color_at(7, 7), Some(blue));
}

#[test]
fn test_fill_polygon_with_hole_punches_hole() {
    let mut fb = Framebuffer::new(120, 120, false);
    let outer = vec![
        Vertex::new(0, 0),
        Vertex::new(100, 0),
        Vertex::new(100, 100),
        Vertex::new(0, 100),
    ];
    let inner = vec![
        Vertex::new(40, 40),
        Vertex::new(60, 40),
        Vertex::new(60, 60),
        Vertex::new(40, 60),
    ];
    let green = Color::from_hex(0x00FF00);
    fill_polygon_with_hole(&mut fb, &outer, &inner, green);
    let black = Color::new(0, 0, 0);
    for y in 0..120usize {
        for x in 0..120usize {
            let in_outer = x <= 100 && (1..=100).contains(&y);
            let in_hole = (41..=59).contains(&x) && (41..=60).contains(&y);
            let expected = if in_outer && !in_hole { green } else { black };
            assert_eq!(fb.get_color_at(x, y), Some(expected), "at ({}, {})", x, y);
        }
    }
    // every pixel strictly inside the hole is unpainted
    for y in 41..60usize {
        for x in 41..60usize {
            assert_eq!(fb.get_color_at(x, y), Some(black));
        }
    }
}

#[test]
fn test_fill_polygon_with_hole_degenerate_is_noop() {
    let mut fb = Framebuffer::new(10, 10, false);
    let outer = vec![
        Vertex::new(0, 0),
        Vertex::new(9, 0),
        Vertex::new(9, 9),
        Vertex::new(0, 9),
    ];
    let inner = vec![Vertex::new(3, 3), Vertex::new(6, 6)];
    fill_polygon_with_hole(&mut fb, &outer, &inner, Color::from_hex(0xFF0000));
    assert!(all_background(&fb, Color::new(0, 0, 0)));
}
