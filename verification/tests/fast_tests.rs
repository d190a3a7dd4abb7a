use ar_tracker::fast::{detect_features, is_corner, KeyPoint};

fn square(w: usize, h: usize, x0: usize, x1: usize, y0: usize, y1: usize, dx: usize, dy: usize) -> Vec<u8> {
    let mut img = vec![0u8; w * h];
    for y in y0..y1 {
        for x in x0..x1 {
            img[(y + dy) * w + x + dx] = 200;
        }
    }
    img
}

fn points(list: &[(usize, usize)]) -> Vec<KeyPoint> {
    list.iter().map(|&(x, y)| KeyPoint { x, y }).collect()
}

#[test]
fn nine_bright_in_a_row_is_a_corner() {
    let mut ring = [0i16; 16];
    for k in 1..10 {
        ring[k] = 100;
    }
    assert!(is_corner(&ring, 50, 10));
}

#[test]
fn eight_bright_in_a_row_is_not_a_corner() {
    let mut ring = [0i16; 16];
    for k in 1..9 {
        ring[k] = 100;
    }
    assert!(!is_corner(&ring, 50, 10));
}

#[test]
fn arc_may_wrap_past_the_end_of_the_ring() {
    let mut ring = [100i16; 16];
    for k in 4..11 {
        ring[k] = 0;
    }
    // Bright at 11..16 and 0..4: nine in a row across the end.
    assert!(is_corner(&ring, 50, 10));
}

#[test]
fn dark_arc_is_a_corner() {
    let mut ring = [100i16; 16];
    for k in 5..14 {
        ring[k] = 10;
    }
    assert!(is_corner(&ring, 100, 20));
}

#[test]
fn values_equal_to_the_bound_do_not_count() {
    let ring = [60i16; 16];
    assert!(!is_corner(&ring, 50, 10));
    assert!(is_corner(&ring, 50, 9));
}

#[test]
fn short_ring_is_read_round_twice() {
    let ring = [100i16; 5];
    assert!(is_corner(&ring, 0, 0));
    let ring4 = [100i16; 4];
    assert!(!is_corner(&ring4, 0, 0));
    let empty: [i16; 0] = [];
    assert!(!is_corner(&empty, 0, 0));
}

#[test]
fn detects_corners_of_a_bright_square() {
    let img = square(40, 40, 18, 28, 18, 28, 0, 0);
    let found = detect_features(&img, 40, 40, 30);
    let expected = points(&[
        (18, 18), (19, 18), (20, 18), (25, 18), (26, 18), (27, 18),
        (18, 19), (19, 19), (26, 19), (27, 19),
        (18, 20), (27, 20),
        (18, 25), (27, 25),
        (18, 26), (19, 26), (26, 26), (27, 26),
        (18, 27), (19, 27), (20, 27), (25, 27), (26, 27), (27, 27),
    ]);
    assert_eq!(found, expected);
}

#[test]
fn moved_square_moves_its_corners() {
    let img = square(40, 40, 18, 28, 18, 28, 2, 1);
    let found = detect_features(&img, 40, 40, 30);
    let base = detect_features(&square(40, 40, 18, 28, 18, 28, 0, 0), 40, 40, 30);
    let shifted: Vec<KeyPoint> = base.iter().map(|k| KeyPoint { x: k.x + 2, y: k.y + 1 }).collect();
    assert_eq!(found, shifted);
}

#[test]
fn detects_corners_of_a_small_square() {
    let img = square(40, 40, 18, 23, 18, 23, 0, 0);
    let found = detect_features(&img, 40, 40, 30);
    let mut expected = Vec::new();
    for y in 18..23 {
        for x in 18..23 {
            if !(x == 20 && y == 20) {
                expected.push(KeyPoint { x, y });
            }
        }
    }
    assert_eq!(found, expected);
}

#[test]
fn single_bright_pixel_in_the_only_interior_position() {
    let img = square(9, 9, 4, 5, 4, 5, 0, 0);
    assert_eq!(detect_features(&img, 9, 9, 30), points(&[(4, 4)]));
    let img12 = square(12, 12, 5, 7, 5, 7, 0, 0);
    assert_eq!(detect_features(&img12, 12, 12, 30), points(&[(5, 5), (6, 5), (5, 6), (6, 6)]));
}

#[test]
fn high_threshold_finds_nothing() {
    let img = square(40, 40, 18, 28, 18, 28, 0, 0);
    assert!(detect_features(&img, 40, 40, 200).is_empty());
}

#[test]
fn flat_image_has_no_corners() {
    let img = vec![7u8; 20 * 15];
    assert!(detect_features(&img, 20, 15, 0).is_empty());
}

#[test]
fn images_without_interior_give_nothing() {
    // Three to six rows leave no interior row; the pixels are never read.
    assert!(detect_features(&[], 100, 3, 30).is_empty());
    assert!(detect_features(&[], 0, 6, 30).is_empty());
    // Seven rows but at most six columns leave no interior column.
    assert!(detect_features(&[], 6, 50, 30).is_empty());
}

#[test]
fn border_pixels_are_never_reported() {
    // A bright pixel on the border ring around an otherwise dark image.
    let mut img = vec![0u8; 10 * 10];
    img[2 * 10 + 2] = 255;
    img[0] = 255;
    for k in detect_features(&img, 10, 10, 10) {
        assert!(k.x >= 3 && k.x + 3 < 10 && k.y >= 3 && k.y + 3 < 10);
    }
}

fn two_squares() -> Vec<u8> {
    let mut img = vec![0u8; 40 * 40];
    for y in 5..12 {
        for x in 5..12 {
            img[y * 40 + x] = 200;
        }
    }
    for y in 22..30 {
        for x in 20..31 {
            img[y * 40 + x] = 60;
        }
    }
    img
}

#[test]
fn raising_the_threshold_only_removes_points() {
    let img = two_squares();
    let low = detect_features(&img, 40, 40, 30);
    let high = detect_features(&img, 40, 40, 100);
    assert_eq!(low.len(), 48);
    assert_eq!(high.len(), 24);
    let kept: Vec<KeyPoint> = low.iter().copied().filter(|k| high.contains(k)).collect();
    assert_eq!(kept, high);
}

#[test]
fn inverted_image_gives_the_same_points() {
    let img = two_squares();
    let inv: Vec<u8> = img.iter().map(|&v| 255 - v).collect();
    assert_eq!(detect_features(&inv, 40, 40, 30), detect_features(&img, 40, 40, 30));
}

#[test]
fn brightened_image_gives_the_same_points() {
    let img = two_squares();
    let bright: Vec<u8> = img.iter().map(|&v| v + 40).collect();
    assert_eq!(detect_features(&bright, 40, 40, 30), detect_features(&img, 40, 40, 30));
}
