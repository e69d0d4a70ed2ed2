use image::GenericImageView;
use rplace::canvas::{CanvasError, CanvasPicture};

const BACKGROUND: [u8; 3] = [234, 237, 237];

fn decode(png: &[u8]) -> image::DynamicImage {
    image::load_from_memory_with_format(png, image::ImageFormat::Png).expect("valid PNG")
}

fn pixel(png: &[u8], x: u32, y: u32) -> [u8; 3] {
    let p = decode(png).get_pixel(x, y);
    [p[0], p[1], p[2]]
}

fn rendered(width: u32, height: u32) -> CanvasPicture {
    CanvasPicture::new(width, height)
}

#[test]
fn new_canvas_is_blank_and_rendered() {
    let c = rendered(3, 2);
    assert_eq!(c.get_data(), &[0u8; 6][..]);
    let png = c.get_bytes();
    assert_eq!(decode(&png).dimensions(), (3, 2));
    for x in 0..3 {
        for y in 0..2 {
            assert_eq!(pixel(&png, x, y), BACKGROUND);
        }
    }
}

#[test]
fn empty_map_load_keeps_the_rendering() {
    let mut c = rendered(4, 3);
    let before = c.get_bytes();
    c.load_map(&[]);
    assert_eq!(c.get_bytes(), before);
}

#[test]
fn empty_map_renders_the_background() {
    let c = rendered(4, 3);
    let png = c.get_bytes();
    assert_eq!(&png[..8], &[0x89, b'P', b'N', b'G', 0x0d, 0x0a, 0x1a, 0x0a]);
    let img = decode(&png);
    assert_eq!(img.dimensions(), (4, 3));
    for x in 0..4 {
        for y in 0..3 {
            assert_eq!(pixel(&png, x, y), BACKGROUND);
        }
    }
}

#[test]
fn set_pixel_writes_cell_and_pixel() {
    let mut c = rendered(4, 4);
    assert_eq!(c.set_pixel(1, 2, 3), Ok(()));
    let mut expected = vec![0u8; 16];
    expected[1 * 4 + 2] = 3;
    assert_eq!(c.get_data(), &expected[..]);
    let png = c.get_bytes();
    assert_eq!(pixel(&png, 1, 2), [58, 175, 218]);
    assert_eq!(pixel(&png, 2, 1), BACKGROUND);
}

#[test]
fn set_pixel_out_of_bounds_changes_nothing() {
    let mut c = rendered(4, 4);
    let before = c.get_bytes();
    assert_eq!(c.set_pixel(4, 0, 1), Err(CanvasError::OutOfBounds));
    assert_eq!(c.set_pixel(0, 4, 1), Err(CanvasError::OutOfBounds));
    assert_eq!(c.get_data(), &[0u8; 16][..]);
    assert_eq!(c.get_bytes(), before);
}

#[test]
fn out_of_bounds_message() {
    assert_eq!(CanvasError::OutOfBounds.message(), "Pixel out of bounds");
}

#[test]
fn palette_colours() {
    let expected: [[u8; 3]; 17] = [
        BACKGROUND,
        [241, 118, 19],
        [190, 69, 180],
        [58, 175, 218],
        [249, 198, 39],
        [112, 185, 25],
        [238, 141, 173],
        [62, 68, 71],
        [142, 142, 135],
        [21, 138, 145],
        [122, 42, 173],
        [53, 57, 158],
        [114, 71, 40],
        [85, 109, 27],
        [161, 39, 34],
        [20, 21, 25],
        BACKGROUND,
    ];
    let mut c = rendered(17, 17);
    for code in 0..17u8 {
        assert_eq!(c.set_pixel(code as u32, 0, code), Ok(()));
    }
    let png = c.get_bytes();
    for code in 0..17u32 {
        assert_eq!(pixel(&png, code, 0), expected[code as usize]);
    }
}

#[test]
fn fill_rect_paints_the_rectangle() {
    let mut c = rendered(5, 5);
    assert_eq!(c.fill_rect(1, 2, 2, 2, 5), Ok(()));
    let data = c.get_data().to_vec();
    let png = c.get_bytes();
    for x in 0..5u32 {
        for y in 0..5u32 {
            let inside = (1..3).contains(&x) && (2..4).contains(&y);
            assert_eq!(data[(x * 5 + y) as usize], if inside { 5 } else { 0 });
            assert_eq!(pixel(&png, x, y), if inside { [112, 185, 25] } else { BACKGROUND });
        }
    }
}

#[test]
fn fill_rect_may_not_reach_the_last_row_or_column() {
    let mut c = rendered(5, 5);
    assert_eq!(c.fill_rect(3, 0, 2, 1, 5), Err(CanvasError::OutOfBounds));
    assert_eq!(c.fill_rect(0, 4, 1, 1, 5), Err(CanvasError::OutOfBounds));
    assert_eq!(c.get_data(), &[0u8; 25][..]);
    assert_eq!(c.fill_rect(3, 3, 1, 1, 5), Ok(()));
    assert_eq!(c.get_data()[3 * 5 + 3], 5);
}

#[test]
fn empty_rect_paints_nothing_but_renders() {
    let mut c = rendered(4, 4);
    let before = c.get_bytes();
    assert_eq!(c.fill_rect(1, 1, 0, 2, 7), Ok(()));
    assert_eq!(c.get_data(), &[0u8; 16][..]);
    assert_eq!(c.get_bytes(), before);
}

#[test]
fn unit_rect_matches_set_pixel() {
    let mut a = rendered(6, 6);
    let mut b = rendered(6, 6);
    assert_eq!(a.fill_rect(2, 3, 1, 1, 9), Ok(()));
    assert_eq!(b.set_pixel(2, 3, 9), Ok(()));
    assert_eq!(a.get_data(), b.get_data());
    assert_eq!(a.get_bytes(), b.get_bytes());
}

#[test]
fn saved_map_round_trip() {
    let mut a = rendered(256, 256);
    assert_eq!(a.set_pixel(0, 0, 1), Ok(()));
    assert_eq!(a.set_pixel(255, 255, 15), Ok(()));
    assert_eq!(a.fill_rect(10, 20, 30, 40, 4), Ok(()));
    let saved = a.get_data().to_vec();

    let mut b = rendered(256, 256);
    assert!(b.can_load_map(saved.len()));
    b.load_map(&saved);
    assert_eq!(b.get_data(), &saved[..]);
    assert_eq!(b.get_bytes(), a.get_bytes());
}

#[test]
fn load_map_places_byte_i_at_column_i_div_256() {
    let mut c = rendered(3, 256);
    let mut buf = vec![0u8; 300];
    buf[0] = 1;
    buf[255] = 2;
    buf[256] = 3;
    buf[299] = 4;
    assert!(c.can_load_map(buf.len()));
    c.load_map(&buf);
    let data = c.get_data();
    assert_eq!(data[0], 1);
    assert_eq!(data[255], 2);
    // byte 256 goes to column 1, row 0: index 1 * 3 + 0
    assert_eq!(data[3], 3);
    // byte 299 goes to column 1, row 43: index 1 * 3 + 43
    assert_eq!(data[46], 4);
    let png = c.get_bytes();
    assert_eq!(pixel(&png, 1, 0), [58, 175, 218]);
    assert_eq!(pixel(&png, 1, 43), [249, 198, 39]);
}

#[test]
fn load_map_checks() {
    let c = rendered(2, 2);
    assert!(c.can_load_map(0));
    assert!(c.can_load_map(2));
    assert!(!c.can_load_map(3));
    let c = rendered(256, 256);
    assert!(c.can_load_map(65536));
    assert!(!c.can_load_map(65537));
}

#[test]
fn preconditions_checks() {
    let c = rendered(4, 4);
    assert!(c.can_set_pixel(3, 3));
    assert!(c.can_set_pixel(9, 9));
    let tall = rendered(2, 5);
    // cell (1, 4) has index 1 * 2 + 4 = 6, past the 10-cell map? no: 6 < 10
    assert!(tall.can_set_pixel(1, 4));
    let wide = rendered(10, 2);
    // cell (9, 1) has index 91, past the 20-cell map
    assert!(!wide.can_set_pixel(9, 1));
    assert!(c.can_fill_rect(0, 0, 3, 3));
    assert!(!c.can_fill_rect(u32::MAX, 0, 1, 1));
    assert!(!wide.can_fill_rect(5, 0, 4, 1));
}

#[test]
fn square_canvas_picture_shows_the_map() {
    let mut c = rendered(8, 8);
    assert_eq!(c.set_pixel(1, 6, 2), Ok(()));
    assert_eq!(c.fill_rect(2, 2, 3, 4, 11), Ok(()));
    assert_eq!(c.set_pixel(3, 3, 14), Ok(()));
    let data = c.get_data().to_vec();
    let png = c.get_bytes();
    let colours: [[u8; 3]; 16] = [
        BACKGROUND,
        [241, 118, 19],
        [190, 69, 180],
        [58, 175, 218],
        [249, 198, 39],
        [112, 185, 25],
        [238, 141, 173],
        [62, 68, 71],
        [142, 142, 135],
        [21, 138, 145],
        [122, 42, 173],
        [53, 57, 158],
        [114, 71, 40],
        [85, 109, 27],
        [161, 39, 34],
        [20, 21, 25],
    ];
    for x in 0..8u32 {
        for y in 0..8u32 {
            assert_eq!(pixel(&png, x, y), colours[data[(x * 8 + y) as usize] as usize]);
        }
    }
}

#[test]
fn wide_canvas_picture_shows_the_map() {
    let mut c = rendered(8, 5);
    assert!(c.can_set_pixel(3, 4));
    assert_eq!(c.set_pixel(3, 4, 6), Ok(()));
    assert!(c.can_fill_rect(0, 1, 4, 2));
    assert_eq!(c.fill_rect(0, 1, 4, 2, 13), Ok(()));
    let data = c.get_data().to_vec();
    let png = c.get_bytes();
    assert_eq!(pixel(&png, 3, 4), [238, 141, 173]);
    assert_eq!(data[3 * 8 + 4], 6);
    for x in 0..4u32 {
        for y in 1..3u32 {
            assert_eq!(data[(x * 8 + y) as usize], 13);
            assert_eq!(pixel(&png, x, y), [85, 109, 27]);
        }
    }
}

#[test]
fn tall_canvas_cells_share_map_indices() {
    // On a canvas higher than wide, cells (0, 2) and (1, 0) both use index 2.
    let mut c = rendered(2, 3);
    assert_eq!(c.set_pixel(0, 2, 1), Ok(()));
    assert_eq!(c.set_pixel(1, 0, 2), Ok(()));
    assert_eq!(c.get_data()[2], 2);
    let png = c.get_bytes();
    assert_eq!(pixel(&png, 0, 2), [241, 118, 19]);
    assert_eq!(pixel(&png, 1, 0), [190, 69, 180]);
}

#[test]
fn last_write_wins() {
    let mut a = rendered(5, 5);
    let mut b = rendered(5, 5);
    assert_eq!(a.set_pixel(2, 3, 4), Ok(()));
    assert_eq!(a.set_pixel(2, 3, 9), Ok(()));
    assert_eq!(b.set_pixel(2, 3, 9), Ok(()));
    assert_eq!(a.get_data(), b.get_data());
    assert_eq!(a.get_bytes(), b.get_bytes());
}

#[test]
fn distinct_writes_commute() {
    let mut a = rendered(5, 5);
    let mut b = rendered(5, 5);
    assert_eq!(a.set_pixel(1, 3, 4), Ok(()));
    assert_eq!(a.set_pixel(3, 1, 8), Ok(()));
    assert_eq!(b.set_pixel(3, 1, 8), Ok(()));
    assert_eq!(b.set_pixel(1, 3, 4), Ok(()));
    assert_eq!(a.get_data(), b.get_data());
    assert_eq!(a.get_bytes(), b.get_bytes());
}

#[test]
fn fill_rect_matches_cell_writes() {
    let mut a = rendered(6, 6);
    let mut b = rendered(6, 6);
    assert_eq!(a.fill_rect(1, 2, 3, 2, 12), Ok(()));
    for (x, y) in [(3, 3), (1, 2), (2, 3), (3, 2), (1, 3), (2, 2), (1, 2)] {
        assert_eq!(b.set_pixel(x, y, 12), Ok(()));
    }
    assert_eq!(a.get_data(), b.get_data());
    assert_eq!(a.get_bytes(), b.get_bytes());
}

#[test]
fn fill_rect_twice_is_fill_rect_once() {
    let mut c = rendered(6, 6);
    assert_eq!(c.fill_rect(1, 1, 3, 2, 10), Ok(()));
    let data = c.get_data().to_vec();
    let png = c.get_bytes();
    assert_eq!(c.fill_rect(1, 1, 3, 2, 10), Ok(()));
    assert_eq!(c.get_data(), &data[..]);
    assert_eq!(c.get_bytes(), png);
}
