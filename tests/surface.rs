use rgl::canvas::Canvas;
use rgl::ppm::PPM;
use rgl::surface::Png;

#[test]
fn ppm_header_and_column_major_bytes() {
    let (c, mut store) = Canvas::new(2, 3);
    c.fill_rect(&mut store, 1, 0, 1, 1, 0xff03_0201);
    c.fill_rect(&mut store, 0, 2, 1, 1, 0xff06_0504);
    let image = PPM::from_canvas(&c, &store);
    assert_eq!((image.width, image.height, image.max_color), (2, 3, 255));
    let bytes = image.encode();
    let header = b"P6\n2 3 255\n";
    assert_eq!(&bytes[..header.len()], header);
    let body = &bytes[header.len()..];
    assert_eq!(body.len(), 18);
    // column 0: rows 0, 1, 2; then column 1
    assert_eq!(&body[0..9], &[0, 0, 0, 0, 0, 0, 4, 5, 6]);
    assert_eq!(&body[9..18], &[1, 2, 3, 0, 0, 0, 0, 0, 0]);
}

#[test]
fn ppm_round_trip_reads_back_channels() {
    let (c, mut store) = Canvas::new(12, 10);
    c.fill(&mut store, 0xff10_2030);
    c.fill_rect(&mut store, 2, 3, 4, 2, 0xff40_5060);
    c.draw_line(&mut store, 0, 0, 11, 9, 0xff00_00ff);
    let image = PPM::from_canvas(&c, &store);
    let bytes = image.encode();
    let header = b"P6\n12 10 255\n";
    assert_eq!(&bytes[..header.len()], header);
    for x in 0..12 {
        for y in 0..10 {
            let p = store[y * 12 + x];
            let at = header.len() + 3 * (x * 10 + y);
            assert_eq!(&bytes[at..at + 3], &[p.red, p.green, p.blue]);
        }
    }
}

#[test]
fn png_rgba_bytes_follow_the_view() {
    let (c, mut store) = Canvas::new(3, 2);
    c.fill_rect(&mut store, 2, 1, 1, 1, 0x8040_2010);
    let sub = c.sub_canvas(1, 1, 2, 1).unwrap();
    let image = Png::from_canvas(&sub, &store);
    assert_eq!((image.width(), image.height()), (2, 1));
    assert_eq!(image.rgba_bytes(), vec![0, 0, 0, 0, 8, 16, 32, 128]);
}
