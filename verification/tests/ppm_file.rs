use sphere_tracer::buffer::RGBABuffer;
use sphere_tracer::ppm::{encode, flush_is_due, push_decimal, push_header, push_payload};
use sphere_tracer::region::ImageRegion;

fn digits(n: u16) -> Vec<u8> {
    let mut out = vec![b'#'];
    push_decimal(&mut out, n);
    out
}

#[test]
fn decimal_digits() {
    assert_eq!(digits(0), b"#0");
    assert_eq!(digits(9), b"#9");
    assert_eq!(digits(10), b"#10");
    assert_eq!(digits(64), b"#64");
    assert_eq!(digits(1024), b"#1024");
    assert_eq!(digits(65535), b"#65535");
    for n in [1u16, 99, 100, 101, 999, 1000, 9999, 10000, 40960] {
        assert_eq!(digits(n), format!("#{}", n).into_bytes());
    }
}

#[test]
fn header_in_colour_and_in_grey() {
    let mut out = Vec::new();
    push_header(&mut out, true, 64, 128);
    assert_eq!(out, b"P6\n64 128\n255\n");
    let mut out = b"x".to_vec();
    push_header(&mut out, false, 1024, 0);
    assert_eq!(out, b"xP5\n1024 0\n255\n");
}

fn two_pixels() -> RGBABuffer {
    let mut b = RGBABuffer::new(&ImageRegion { l: 4, t: 9, r: 6, b: 8 });
    b.set_pixel(4, 8, [10, 20, 33, 200]);
    b.set_pixel(5, 8, [255, 255, 255, 0]);
    b
}

#[test]
fn payload_in_colour_leaves_alpha_out() {
    let mut out = vec![7u8];
    push_payload(&mut out, &two_pixels(), true);
    assert_eq!(out, [7, 10, 20, 33, 255, 255, 255]);
}

#[test]
fn payload_in_grey_is_the_mean_rounded_down() {
    let mut out = Vec::new();
    push_payload(&mut out, &two_pixels(), false);
    assert_eq!(out, [21, 255]);

    let mut b = RGBABuffer::new(&ImageRegion { l: 0, t: 1, r: 3, b: 0 });
    b.set_pixel(0, 0, [0, 0, 1, 9]);
    b.set_pixel(1, 0, [0, 1, 1, 9]);
    b.set_pixel(2, 0, [1, 1, 1, 9]);
    let mut out = Vec::new();
    push_payload(&mut out, &b, false);
    assert_eq!(out, [0, 0, 1]);
}

#[test]
fn grey_agrees_with_the_mean_taken_in_floating_point() {
    for r in (0u16..=255).step_by(5) {
        for g in (0u16..=255).step_by(17) {
            for b in [0u16, 1, 2, 127, 254, 255] {
                let mut buf = RGBABuffer::new(&ImageRegion { l: 0, t: 1, r: 1, b: 0 });
                buf.set_pixel(0, 0, [r as u8, g as u8, b as u8, 0]);
                let mut out = Vec::new();
                push_payload(&mut out, &buf, false);
                let mean = ((r as f32 + g as f32 + b as f32) / 3.0f32) as u8;
                assert_eq!(out, [mean]);
            }
        }
    }
}

#[test]
fn whole_file() {
    assert_eq!(encode(&two_pixels(), true, 2, 1), b"P6\n2 1\n255\n\x0a\x14\x21\xff\xff\xff");
    assert_eq!(encode(&two_pixels(), false, 2, 1), b"P5\n2 1\n255\n\x15\xff");
    let empty = RGBABuffer::new(&ImageRegion { l: 0, t: 0, r: 0, b: 0 });
    assert_eq!(encode(&empty, true, 0, 0), b"P6\n0 0\n255\n");
}

#[test]
fn file_is_written_at_most_once_a_second() {
    assert!(flush_is_due(true, None));
    assert!(flush_is_due(true, Some(1000)));
    assert!(flush_is_due(true, Some(5000)));
    assert!(!flush_is_due(true, Some(999)));
    assert!(!flush_is_due(true, Some(0)));
    assert!(!flush_is_due(false, None));
    assert!(!flush_is_due(false, Some(5000)));
}
