use rgl::canvas::Canvas;
use rgl::pixel::Pixel;

fn px(r: u8, g: u8, b: u8, a: u8) -> Pixel {
    Pixel { red: r, green: g, blue: b, alpha: a }
}

fn at(c: &Canvas, store: &Vec<Pixel>, x: usize, y: usize) -> Pixel {
    store[c.offset + y * c.stride + x]
}

const CLEAR: Pixel = Pixel { red: 0, green: 0, blue: 0, alpha: 0 };

#[test]
fn area_test() {
    let a = Canvas::double_trangle_area(0, 0, 1, 0, 0, 1);
    assert_eq!(a, 1);
    assert_eq!(Canvas::double_trangle_area(0, 0, 0, 1, 1, 0), 1);
}

#[test]
fn double_area_of_far_vertices_does_not_overflow() {
    let a = Canvas::double_trangle_area(i32::MIN, i32::MIN, i32::MAX, i32::MIN, i32::MIN, i32::MAX);
    let side = (i32::MAX as i128) - (i32::MIN as i128);
    assert_eq!(a, side * side);
}

#[test]
fn blend_formula_exact() {
    let mut d = px(100, 100, 100, 100);
    d.blend(&px(200, 0, 50, 128));
    assert_eq!(d, px(150, 49, 74, 177));
}

#[test]
fn blend_opaque_replaces_and_transparent_keeps() {
    let mut d = px(1, 2, 3, 4);
    d.blend(&px(9, 8, 7, 255));
    assert_eq!(d, px(9, 8, 7, 255));
    let mut e = px(1, 2, 3, 4);
    e.blend(&px(9, 8, 7, 0));
    assert_eq!(e, px(1, 2, 3, 4));
}

#[test]
fn pack_and_unpack() {
    let p = Pixel::from_u32(0x1122_3344);
    assert_eq!(p, px(0x44, 0x33, 0x22, 0x11));
    assert_eq!(p.to_u32(), 0x1122_3344);
    let q: Pixel = 0xff00_00ffu32.into();
    assert_eq!(q, px(0xff, 0, 0, 0xff));
}

#[test]
fn new_canvas_is_clear() {
    let (c, store) = Canvas::new(4, 3);
    assert_eq!(c.width, 4);
    assert_eq!(c.height, 3);
    assert_eq!(c.stride, 4);
    assert_eq!(c.offset, 0);
    assert_eq!(store.len(), 12);
    assert!(store.iter().all(|p| *p == CLEAR));
}

#[test]
fn fill_rect_clips_and_leaves_the_rest() {
    let (c, mut store) = Canvas::new(4, 3);
    c.fill_rect(&mut store, -1, 1, 3, 5, 0xff00_00ff);
    for y in 0..3 {
        for x in 0..4 {
            let want = if x < 2 && y >= 1 { px(0xff, 0, 0, 0xff) } else { CLEAR };
            assert_eq!(at(&c, &store, x, y), want, "pixel ({}, {})", x, y);
        }
    }
}

#[test]
fn fill_rect_outside_is_a_no_op() {
    let (c, mut store) = Canvas::new(4, 3);
    c.fill_rect(&mut store, 10, 0, 3, 3, 0xffff_ffff);
    c.fill_rect(&mut store, 0, 0, 0, 3, 0xffff_ffff);
    c.fill_rect(&mut store, -5, -5, 5, 5, 0xffff_ffff);
    assert!(store.iter().all(|p| *p == CLEAR));
}

#[test]
fn fill_blends_every_pixel() {
    let (c, mut store) = Canvas::new(3, 2);
    c.fill(&mut store, 0xffff_ffff);
    assert!(store.iter().all(|p| *p == px(255, 255, 255, 255)));
    c.fill(&mut store, 0x8000_0000);
    assert!(store.iter().all(|p| *p == px(127, 127, 127, 255)));
}

#[test]
fn fill_circle_center_edge_and_far() {
    let (c, mut store) = Canvas::new(20, 20);
    c.fill_circle(&mut store, 10, 10, 5, 0xff00_ff00);
    assert_eq!(at(&c, &store, 10, 10), px(0, 255, 0, 255));
    assert_eq!(at(&c, &store, 10, 5), px(0, 128, 0, 128));
    assert_eq!(at(&c, &store, 7, 6), px(0, 128, 0, 128));
    assert_eq!(at(&c, &store, 17, 10), CLEAR);
    assert_eq!(at(&c, &store, 15, 10), CLEAR);
    assert_eq!(at(&c, &store, 4, 4), CLEAR);
    assert_eq!(at(&c, &store, 5, 5), CLEAR);
}

#[test]
fn fill_circle_radius_zero_draws_nothing() {
    let (c, mut store) = Canvas::new(5, 5);
    c.fill_circle(&mut store, 2, 2, 0, 0xffff_ffff);
    assert!(store.iter().all(|p| *p == CLEAR));
}

fn painted(c: &Canvas, store: &Vec<Pixel>) -> Vec<(usize, usize)> {
    let mut out = Vec::new();
    for y in 0..c.height {
        for x in 0..c.width {
            if at(c, store, x, y) != CLEAR {
                out.push((x, y));
            }
        }
    }
    out
}

const TRIANGLE: [(usize, usize); 13] = [
    (0, 0), (1, 0), (2, 0), (3, 0),
    (0, 1), (1, 1), (2, 1), (3, 1),
    (0, 2), (1, 2), (2, 2),
    (0, 3), (1, 3),
];

#[test]
fn fill_triangle_area_test() {
    let (c, mut store) = Canvas::new(5, 5);
    c.fill_triangle(&mut store, 0, 0, 4, 0, 0, 4, 0xffff_ffff);
    assert_eq!(painted(&c, &store), TRIANGLE.to_vec());
}

#[test]
fn fill_triangle_vertex_order_does_not_matter() {
    let orders = [
        (0, 0, 4, 0, 0, 4),
        (0, 4, 4, 0, 0, 0),
        (4, 0, 0, 0, 0, 4),
        (0, 0, 0, 4, 4, 0),
    ];
    for (x1, y1, x2, y2, x3, y3) in orders {
        let (c, mut store) = Canvas::new(5, 5);
        c.fill_triangle(&mut store, x1, y1, x2, y2, x3, y3, 0xffff_ffff);
        assert_eq!(painted(&c, &store), TRIANGLE.to_vec());
    }
}

#[test]
fn degenerate_triangles() {
    // zero area: only points on the segment pass the equality test
    let (c, mut store) = Canvas::new(5, 5);
    c.fill_triangle(&mut store, 0, 0, 2, 2, 4, 4, 0xffff_ffff);
    assert_eq!(painted(&c, &store), vec![(0, 0), (1, 1), (2, 2), (3, 3)]);
    let (d, mut point) = Canvas::new(5, 5);
    d.fill_triangle(&mut point, 2, 2, 2, 2, 2, 2, 0xffff_ffff);
    assert!(point.iter().all(|p| *p == CLEAR));
}

#[test]
fn vertical_line_excludes_upper_end() {
    let (c, mut store) = Canvas::new(5, 5);
    c.draw_line(&mut store, 2, 3, 2, 0, 0xffff_ffff);
    assert_eq!(painted(&c, &store), vec![(2, 0), (2, 1), (2, 2)]);
    let (d, mut other) = Canvas::new(5, 5);
    d.draw_line(&mut other, 7, 0, 7, 4, 0xffff_ffff);
    assert!(other.iter().all(|p| *p == CLEAR));
}

#[test]
fn diagonal_lines() {
    let (c, mut store) = Canvas::new(5, 5);
    c.draw_line(&mut store, 0, 0, 4, 4, 0xffff_ffff);
    assert_eq!(painted(&c, &store), vec![(0, 0), (1, 1), (2, 2), (3, 3)]);
    let (d, mut steep) = Canvas::new(5, 5);
    d.draw_line(&mut steep, 0, 0, 2, 5, 0xffff_ffff);
    assert_eq!(painted(&d, &steep), vec![(0, 0), (0, 1), (1, 2), (1, 3), (1, 4)]);
    let (e, mut down) = Canvas::new(5, 5);
    e.draw_line(&mut down, 0, 4, 4, 0, 0xffff_ffff);
    assert_eq!(painted(&e, &down), vec![(3, 0), (2, 1), (1, 2), (0, 3)]);
}

#[test]
fn horizontal_and_leftward_lines_draw_nothing() {
    let (c, mut store) = Canvas::new(5, 5);
    c.draw_line(&mut store, 0, 2, 4, 2, 0xffff_ffff);
    c.draw_line(&mut store, 4, 0, 0, 4, 0xffff_ffff);
    assert!(store.iter().all(|p| *p == CLEAR));
}

#[test]
fn sub_canvas_draws_into_parent() {
    let (parent, mut store) = Canvas::new(4, 4);
    let sub = parent.sub_canvas(1, 1, 2, 2).unwrap();
    assert_eq!((sub.offset, sub.width, sub.height, sub.stride), (5, 2, 2, 4));
    sub.fill_rect(&mut store, 0, 0, 10, 10, 0xff00_00ff);
    assert_eq!(painted(&parent, &store), vec![(1, 1), (2, 1), (1, 2), (2, 2)]);
}

#[test]
fn nested_sub_canvas_keeps_parent_offset() {
    let (root, mut store) = Canvas::new(6, 6);
    let a = root.sub_canvas(2, 2, 4, 4).unwrap();
    let b = a.sub_canvas(1, 1, 10, 10).unwrap();
    assert_eq!((b.offset, b.width, b.height), (3 * 6 + 3, 3, 3));
    b.fill_rect(&mut store, 0, 0, 1, 1, 0xffff_ffff);
    assert_eq!(painted(&root, &store), vec![(3, 3)]);
}

#[test]
fn sub_canvas_clips_negative_corner() {
    let (parent, _store) = Canvas::new(4, 4);
    let sub = parent.sub_canvas(-1, -2, 3, 4).unwrap();
    assert_eq!((sub.offset, sub.width, sub.height), (0, 2, 2));
}

#[test]
fn sub_canvas_empty_or_outside_is_none() {
    let (parent, _store) = Canvas::new(4, 4);
    assert!(parent.sub_canvas(0, 0, 0, 2).is_none());
    assert!(parent.sub_canvas(0, 0, 2, 0).is_none());
    assert!(parent.sub_canvas(4, 0, 2, 2).is_none());
    assert!(parent.sub_canvas(0, 4, 2, 2).is_none());
    assert!(parent.sub_canvas(-3, 0, 3, 2).is_none());
    assert!(parent.sub_canvas(0, -5, 2, 5).is_none());
    assert!(parent.sub_canvas(3, 3, 5, 5).is_some());
}

#[test]
fn clone_pixels_reads_the_view_row_by_row() {
    let (parent, mut store) = Canvas::new(3, 3);
    for i in 0..9 {
        store[i] = px(i as u8, 0, 0, 0);
    }
    let sub = parent.sub_canvas(1, 1, 2, 2).unwrap();
    let reds: Vec<u8> = sub.clone_pixels(&store).iter().map(|p| p.red).collect();
    assert_eq!(reds, vec![4, 5, 7, 8]);
    assert_eq!(parent.clone_pixels(&store), store);
}
