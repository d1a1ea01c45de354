use sphere_tracer::buffer::RGBABuffer;
use sphere_tracer::region::ImageRegion;

#[test]
fn image_region() {
    let r = ImageRegion {
        l: 2,
        t: 18,
        r: 34,
        b: 2,
    };
    assert_eq!(r.width(), 32);
    assert_eq!(r.height(), 16);
    assert_eq!(r.area(), 16 * 32);
    assert!(r.contains(&r));
    let mut l = r;
    l.l = 1;
    assert!(l.contains(&r));
    assert!(!r.contains(&l));
}

#[test]
fn containment_is_a_partial_order() {
    let outer = ImageRegion { l: 0, t: 128, r: 128, b: 0 };
    let mid = ImageRegion { l: 0, t: 128, r: 64, b: 64 };
    let inner = ImageRegion { l: 8, t: 100, r: 16, b: 70 };
    assert!(outer.contains(&mid));
    assert!(mid.contains(&inner));
    assert!(outer.contains(&inner));
    assert!(!inner.contains(&mid));
    assert!(!mid.contains(&outer));
    // moving one edge outwards breaks containment in one direction only
    let mut wider = mid;
    wider.r = 65;
    assert!(wider.contains(&mid));
    assert!(!mid.contains(&wider));
    assert!(mid.contains(&mid) && wider.contains(&wider));
}

#[test]
fn empty_region_has_no_area() {
    let r = ImageRegion { l: 5, t: 9, r: 5, b: 1 };
    assert_eq!(r.width(), 0);
    assert_eq!(r.height(), 8);
    assert_eq!(r.area(), 0);
    assert_eq!(RGBABuffer::new(&r).buffer().len(), 0);
}

#[test]
fn largest_region_area() {
    let r = ImageRegion { l: 0, t: 65535, r: 65535, b: 0 };
    assert_eq!(r.area(), 65535usize * 65535usize);
    assert_eq!(r.buffer_offset(65534, 65534), 65535usize * 65535usize - 1);
}

#[test]
fn buffer_offset_is_row_major() {
    let r = ImageRegion { l: 2, t: 18, r: 34, b: 2 };
    assert_eq!(r.buffer_offset(2, 2), 0);
    assert_eq!(r.buffer_offset(3, 2), 1);
    assert_eq!(r.buffer_offset(33, 2), 31);
    assert_eq!(r.buffer_offset(2, 3), 32);
    assert_eq!(r.buffer_offset(33, 17), 511);
    assert_eq!(r.buffer_offset(10, 7), 5 * 32 + 8);
}

#[test]
fn new_buffer_is_zeroed() {
    let r = ImageRegion { l: 2, t: 18, r: 34, b: 2 };
    let b = RGBABuffer::new(&r);
    assert_eq!(RGBABuffer::components(), 4);
    assert_eq!(b.buffer().len(), 512 * 4);
    assert!(b.buffer().iter().all(|v| *v == 0));
    assert_eq!(*b.region(), r);
}

#[test]
fn set_pixel_writes_four_bytes_in_place() {
    let r = ImageRegion { l: 2, t: 6, r: 6, b: 2 };
    let mut b = RGBABuffer::new(&r);
    b.set_pixel(3, 4, [10, 20, 30, 40]);
    let at = (2 * 4 + 1) * 4;
    for (i, v) in b.buffer().iter().enumerate() {
        let want = if i >= at && i < at + 4 { ((i - at + 1) * 10) as u8 } else { 0 };
        assert_eq!(*v, want);
    }
    b.set_pixel(5, 5, [1, 2, 3, 4]);
    assert_eq!(b.buffer()[60..64], [1, 2, 3, 4]);
    assert_eq!(b.buffer()[at..at + 4], [10, 20, 30, 40]);
}

fn numbered(r: &ImageRegion, start: u8) -> RGBABuffer {
    let mut b = RGBABuffer::new(r);
    let mut n = start;
    for y in r.b..r.t {
        for x in r.l..r.r {
            b.set_pixel(x, y, [n, n.wrapping_add(1), n.wrapping_add(2), 255]);
            n = n.wrapping_add(3);
        }
    }
    b
}

#[test]
fn tile_lands_at_its_place_in_the_frame() {
    let frame_region = ImageRegion { l: 0, t: 4, r: 6, b: 0 };
    let tile_region = ImageRegion { l: 2, t: 3, r: 5, b: 1 };
    let mut frame = numbered(&frame_region, 100);
    let before = frame.buffer().clone();
    let tile = numbered(&tile_region, 1);
    frame.set_pixels_from_buffer(&tile);
    for y in 0u16..4 {
        for x in 0u16..6 {
            for c in 0usize..4 {
                let i = frame_region.buffer_offset(x, y) * 4 + c;
                let inside = x >= 2 && x < 5 && y >= 1 && y < 3;
                let want = if inside {
                    tile.buffer()[tile_region.buffer_offset(x, y) * 4 + c]
                } else {
                    before[i]
                };
                assert_eq!(frame.buffer()[i], want);
            }
        }
    }
    // one exact value: pixel (3, 2) is the tile's fifth pixel
    let i = frame_region.buffer_offset(3, 2) * 4;
    assert_eq!(frame.buffer()[i..i + 4], [13, 14, 15, 255]);
    assert_eq!(*frame.region(), frame_region);
}

#[test]
fn tile_of_the_whole_frame_replaces_it() {
    let r = ImageRegion { l: 0, t: 3, r: 3, b: 0 };
    let mut frame = numbered(&r, 7);
    let tile = numbered(&r, 90);
    frame.set_pixels_from_buffer(&tile);
    assert_eq!(frame.buffer(), tile.buffer());
}

#[test]
fn writing_a_tile_twice_changes_nothing_more() {
    let frame_region = ImageRegion { l: 0, t: 128, r: 128, b: 0 };
    let tile_region = ImageRegion { l: 64, t: 128, r: 128, b: 64 };
    let mut frame = numbered(&frame_region, 3);
    let tile = numbered(&tile_region, 200);
    frame.set_pixels_from_buffer(&tile);
    let once = frame.buffer().clone();
    frame.set_pixels_from_buffer(&tile);
    assert_eq!(*frame.buffer(), once);
}

#[test]
fn empty_tile_changes_nothing() {
    let frame_region = ImageRegion { l: 0, t: 4, r: 4, b: 0 };
    let mut frame = numbered(&frame_region, 3);
    let before = frame.buffer().clone();
    let tile = RGBABuffer::new(&ImageRegion { l: 4, t: 4, r: 4, b: 0 });
    frame.set_pixels_from_buffer(&tile);
    assert_eq!(*frame.buffer(), before);
}
