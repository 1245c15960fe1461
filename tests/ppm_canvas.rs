use raytracer::canvas::Canvas;
use raytracer::ppm::{encode_ppm, Rgb};

fn text_of(width: usize, height: usize, channels: &Vec<u8>) -> String {
    String::from_utf8(encode_ppm(width, height, channels)).unwrap()
}

#[test]
fn ppm_header_lines() {
    let channels = vec![0u8; 5 * 3 * 3];
    let ppm = text_of(5, 3, &channels);
    let mut lines = ppm.lines();
    assert_eq!(lines.next(), Some("P3"));
    assert_eq!(lines.next(), Some("5 3"));
    assert_eq!(lines.next(), Some("255"));
}

#[test]
fn ppm_pixel_data() {
    let mut channels = vec![0u8; 5 * 3 * 3];
    channels[0] = 255;
    channels[(1 * 5 + 2) * 3 + 1] = 128;
    channels[(2 * 5 + 4) * 3 + 2] = 255;
    let ppm = text_of(5, 3, &channels);
    let mut lines = ppm.lines();
    lines.next();
    lines.next();
    lines.next();
    assert_eq!(lines.next(), Some("255 0 0 0 0 0 0 0 0 0 0 0 0 0 0"));
    assert_eq!(lines.next(), Some("0 0 0 0 0 0 0 128 0 0 0 0 0 0 0"));
    assert_eq!(lines.next(), Some("0 0 0 0 0 0 0 0 0 0 0 0 0 0 255"));
    assert_eq!(lines.next(), None);
}

#[test]
fn ppm_splits_long_lines() {
    let mut channels = Vec::new();
    for _ in 0..20 {
        channels.push(255u8);
        channels.push(204u8);
        channels.push(153u8);
    }
    let ppm = text_of(10, 2, &channels);
    for line in ppm.lines() {
        assert!(line.len() <= 70);
    }
    let mut lines = ppm.lines();
    lines.next();
    lines.next();
    lines.next();
    assert_eq!(lines.next(), Some("255 204 153 255 204 153 255 204 153 255 204 153 255 204 153 255 204"));
    assert_eq!(lines.next(), Some("153 255 204 153 255 204 153 255 204 153 255 204 153"));
    assert_eq!(lines.next(), Some("255 204 153 255 204 153 255 204 153 255 204 153 255 204 153 255 204"));
    assert_eq!(lines.next(), Some("153 255 204 153 255 204 153 255 204 153 255 204 153"));
    assert_eq!(lines.next(), None);
}

#[test]
fn ppm_ends_with_newline() {
    let channels = vec![0u8; 5 * 3 * 3];
    assert!(text_of(5, 3, &channels).ends_with("\n"));
}

#[test]
fn ppm_empty_image_is_header_only() {
    let channels: Vec<u8> = Vec::new();
    assert_eq!(text_of(0, 4, &channels), "P3\n0 4\n255\n");
    assert_eq!(text_of(7, 0, &channels), "P3\n7 0\n255\n");
}

#[test]
fn ppm_one_pixel_per_row() {
    let channels = vec![1u8, 22, 255, 0, 9, 100];
    assert_eq!(text_of(1, 2, &channels), "P3\n1 2\n255\n1 22 255\n0 9 100\n");
}

#[test]
fn canvas_starts_filled() {
    let c = Canvas::new(10, 20, (0u8, 0u8, 0u8));
    assert_eq!(c.width(), 10);
    assert_eq!(c.height(), 20);
    for y in 0..20 {
        for x in 0..10 {
            assert_eq!(c.pixel_at(x, y), (0, 0, 0));
        }
    }
}

#[test]
fn canvas_write_then_read() {
    let mut c = Canvas::new(10, 20, 0u32);
    c.write_pixel(2, 3, 7);
    assert_eq!(c.pixel_at(2, 3), 7);
    assert_eq!(c.pixel_at(3, 2), 0);
}

#[test]
fn canvas_write_out_of_range_is_ignored() {
    let mut c = Canvas::new(3, 2, 1u8);
    c.write_pixel(3, 0, 9);
    c.write_pixel(0, 2, 9);
    for y in 0..2 {
        for x in 0..3 {
            assert_eq!(c.pixel_at(x, y), 1);
        }
    }
}

#[test]
fn canvas_ppm_pixel_data() {
    let black = Rgb { r: 0, g: 0, b: 0 };
    let mut c = Canvas::new(5, 3, black);
    c.write_pixel(0, 0, Rgb { r: 255, g: 0, b: 0 });
    c.write_pixel(2, 1, Rgb { r: 0, g: 128, b: 0 });
    c.write_pixel(4, 2, Rgb { r: 0, g: 0, b: 255 });
    let ppm = String::from_utf8(c.canvas_to_ppm()).unwrap();
    let lines: Vec<&str> = ppm.lines().collect();
    assert_eq!(
        lines,
        vec![
            "P3",
            "5 3",
            "255",
            "255 0 0 0 0 0 0 0 0 0 0 0 0 0 0",
            "0 0 0 0 0 0 0 128 0 0 0 0 0 0 0",
            "0 0 0 0 0 0 0 0 0 0 0 0 0 0 255",
        ]
    );
    assert!(ppm.ends_with("\n"));
}

#[test]
fn canvas_ppm_splits_long_rows() {
    let mut c = Canvas::new(10, 2, Rgb { r: 0, g: 0, b: 0 });
    for y in 0..2 {
        for x in 0..10 {
            c.write_pixel(x, y, Rgb { r: 255, g: 204, b: 153 });
        }
    }
    let ppm = String::from_utf8(c.canvas_to_ppm()).unwrap();
    let lines: Vec<&str> = ppm.lines().skip(3).collect();
    assert_eq!(lines[0], "255 204 153 255 204 153 255 204 153 255 204 153 255 204 153 255 204");
    assert_eq!(lines[1], "153 255 204 153 255 204 153 255 204 153 255 204 153");
    assert_eq!(lines.len(), 4);
}
