use ar_tracker::engine::{frame_format, rgb_to_gray, AREngine, FrameFormat, FrameStep};
use ar_tracker::fast::{detect_features, KeyPoint};

fn gray_square(width: u32, height: u32, dx: u32, dy: u32) -> Vec<u8> {
    let mut frame = vec![0u8; (width * height) as usize];
    for y in 18..28 {
        for x in 18..28 {
            frame[((y + dy) * width + (x + dx)) as usize] = 200;
        }
    }
    frame
}

fn rgba_square(width: u32, height: u32, dx: u32, dy: u32) -> Vec<u8> {
    let mut frame = vec![0u8; (width * height * 4) as usize];
    for y in 18..23 {
        for x in 18..23 {
            let idx = ((y + dy) * width + (x + dx)) as usize * 4;
            frame[idx] = 200;
            frame[idx + 1] = 200;
            frame[idx + 2] = 200;
            frame[idx + 3] = 255;
        }
    }
    frame
}

#[test]
fn luma_weights() {
    assert_eq!(rgb_to_gray(200, 200, 200), 200);
    assert_eq!(rgb_to_gray(255, 255, 255), 255);
    assert_eq!(rgb_to_gray(0, 0, 0), 0);
    assert_eq!(rgb_to_gray(255, 0, 0), 76);
    assert_eq!(rgb_to_gray(0, 255, 0), 149);
    assert_eq!(rgb_to_gray(0, 0, 255), 28);
    assert_eq!(rgb_to_gray(10, 20, 30), 18);
}

#[test]
fn frame_formats() {
    assert_eq!(frame_format(1600, 40, 40), FrameFormat::Gray);
    assert_eq!(frame_format(6400, 40, 40), FrameFormat::Rgba);
    assert_eq!(frame_format(1601, 40, 40), FrameFormat::Invalid);
    assert_eq!(frame_format(0, 0, 40), FrameFormat::Rgba);
    assert_eq!(frame_format(3, 0, 40), FrameFormat::Invalid);
}

#[test]
fn wrong_size_frame_is_rejected_and_changes_nothing() {
    let mut engine = AREngine::init(40, 40);
    assert_eq!(engine.begin_frame(&[1, 2, 3]), FrameStep::Rejected);
    assert!(engine.prev_frame().is_empty());
    assert!(engine.points().is_empty());

    let frame = gray_square(40, 40, 0, 0);
    assert_eq!(engine.begin_frame(&frame), FrameStep::Detected);
    let points = engine.points().to_vec();
    assert_eq!(engine.begin_frame(&vec![9u8; 1599]), FrameStep::Rejected);
    assert_eq!(engine.points(), &points[..]);
    assert_eq!(engine.prev_frame(), &frame[..]);
}

#[test]
fn gray_frames_detect_then_track() {
    let mut engine = AREngine::init(40, 40);
    assert_eq!(engine.width(), 40);
    assert_eq!(engine.height(), 40);

    let frame1 = gray_square(40, 40, 0, 0);
    assert_eq!(engine.begin_frame(&frame1), FrameStep::Detected);
    assert_eq!(engine.points(), &detect_features(&frame1, 40, 40, 30)[..]);
    assert_eq!(engine.points().len(), 24);
    assert_eq!(engine.prev_frame(), &frame1[..]);

    let frame2 = gray_square(40, 40, 2, 1);
    assert_eq!(engine.begin_frame(&frame2), FrameStep::Track);
    assert_eq!(engine.current_frame(&frame2), &frame2[..]);
    // Nothing changes until the tracking outcome is recorded.
    assert_eq!(engine.prev_frame(), &frame1[..]);
    assert_eq!(engine.points().len(), 24);

    let moved: Vec<KeyPoint> = engine.points().iter().map(|k| KeyPoint { x: k.x + 2, y: k.y + 1 }).collect();
    engine.finish_track(&frame2, moved.clone());
    assert_eq!(engine.points(), &moved[..]);
    assert_eq!(engine.prev_frame(), &frame2[..]);
}

#[test]
fn rgba_frames_are_converted_to_gray() {
    let mut engine = AREngine::init(40, 40);
    let frame1 = rgba_square(40, 40, 0, 0);
    assert_eq!(engine.begin_frame(&frame1), FrameStep::Detected);

    let mut gray1 = vec![0u8; 1600];
    for y in 18..23 {
        for x in 18..23 {
            gray1[y * 40 + x] = 200;
        }
    }
    assert_eq!(engine.prev_frame(), &gray1[..]);
    assert_eq!(engine.current_frame(&frame1), &gray1[..]);
    assert_eq!(engine.points(), &detect_features(&gray1, 40, 40, 30)[..]);
    assert_eq!(engine.points().len(), 24);

    let frame2 = rgba_square(40, 40, 2, 1);
    assert_eq!(engine.begin_frame(&frame2), FrameStep::Track);
    let mut gray2 = vec![0u8; 1600];
    for y in 19..24 {
        for x in 20..25 {
            gray2[y * 40 + x] = 200;
        }
    }
    assert_eq!(engine.current_frame(&frame2), &gray2[..]);
    engine.finish_track(&frame2, Vec::new());
    assert_eq!(engine.prev_frame(), &gray2[..]);
    assert!(engine.points().is_empty());

    // With too few points left, the next frame is detected afresh.
    assert_eq!(engine.begin_frame(&frame1), FrameStep::Detected);
    assert_eq!(engine.prev_frame(), &gray1[..]);
}

#[test]
fn neutral_rgba_frame_behaves_like_its_gray_frame() {
    let gray = gray_square(40, 40, 0, 0);
    let mut rgba = Vec::new();
    for &v in &gray {
        rgba.extend_from_slice(&[v, v, v, 17]);
    }
    let mut from_gray = AREngine::init(40, 40);
    let mut from_rgba = AREngine::init(40, 40);
    assert_eq!(from_gray.begin_frame(&gray), from_rgba.begin_frame(&rgba));
    assert_eq!(from_gray.points(), from_rgba.points());
    assert_eq!(from_gray.prev_frame(), from_rgba.prev_frame());
}

#[test]
fn flat_frames_never_leave_detection() {
    let mut engine = AREngine::init(20, 20);
    let flat = vec![50u8; 400];
    assert_eq!(engine.begin_frame(&flat), FrameStep::Detected);
    assert!(engine.points().is_empty());
    assert_eq!(engine.begin_frame(&flat), FrameStep::Detected);
}

#[test]
fn any_rgba_frame_behaves_like_its_luma_frame() {
    let mut rgba = vec![0u8; 1600 * 4];
    for i in 0..1600 {
        let (x, y) = (i % 40, i / 40);
        let inside = (15..30).contains(&x) && (12..25).contains(&y);
        rgba[4 * i] = if inside { 250 } else { 3 };
        rgba[4 * i + 1] = if inside { 180 } else { 9 };
        rgba[4 * i + 2] = if inside { 40 } else { 200 };
        rgba[4 * i + 3] = (i % 256) as u8;
    }
    let luma: Vec<u8> = (0..1600).map(|i| rgb_to_gray(rgba[4 * i], rgba[4 * i + 1], rgba[4 * i + 2])).collect();
    let mut a = AREngine::init(40, 40);
    let mut b = AREngine::init(40, 40);
    assert_eq!(a.begin_frame(&rgba), b.begin_frame(&luma));
    assert_eq!(a.prev_frame(), b.prev_frame());
    assert_eq!(a.points(), b.points());
    assert!(a.points().len() >= 5);
    assert_eq!(a.begin_frame(&rgba), FrameStep::Track);
    assert_eq!(b.begin_frame(&luma), FrameStep::Track);
    assert_eq!(a.current_frame(&rgba), b.current_frame(&luma));
    a.finish_track(&rgba, vec![KeyPoint { x: 1, y: 2 }]);
    b.finish_track(&luma, vec![KeyPoint { x: 1, y: 2 }]);
    assert_eq!(a.prev_frame(), b.prev_frame());
    assert_eq!(a.points(), b.points());
}

#[test]
fn previous_frame_is_empty_or_whole() {
    let mut engine = AREngine::init(20, 10);
    assert_eq!(engine.begin_frame(&[0u8; 5]), FrameStep::Rejected);
    assert_eq!(engine.prev_frame().len(), 0);
    assert_eq!(engine.begin_frame(&vec![1u8; 800]), FrameStep::Detected);
    assert_eq!(engine.prev_frame().len(), 200);
    assert_eq!(engine.begin_frame(&[0u8; 5]), FrameStep::Rejected);
    assert_eq!(engine.prev_frame().len(), 200);
    assert_eq!(engine.begin_frame(&vec![2u8; 200]), FrameStep::Detected);
    assert_eq!(engine.prev_frame(), &vec![2u8; 200][..]);
}
