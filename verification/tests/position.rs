use poisjuoksu::track::is_valid_track;
use poisjuoksu::{RoadRenderer, Segment, SideInclination};

fn flat(length: i32) -> Segment {
    Segment::new((SideInclination::Flat, SideInclination::Flat), length, 0, 0)
}

fn state(r: &RoadRenderer) -> (i32, usize, i32) {
    (r.distance(), r.segment(), r.segment_start())
}

#[test]
fn segment_new_keeps_its_arguments() {
    let s = Segment::new((SideInclination::Downhill, SideInclination::Uphill), 51200, -10, 7);
    assert!(matches!(s.side_style.0, SideInclination::Downhill));
    assert!(matches!(s.side_style.1, SideInclination::Uphill));
    assert_eq!(s.length, 51200);
    assert_eq!(s.x_curve, -10);
    assert_eq!(s.y_curve, 7);
}

#[test]
fn a_track_is_valid_without_negative_lengths() {
    assert!(is_valid_track(&[]));
    assert!(is_valid_track(&[flat(0), flat(5)]));
    assert!(!is_valid_track(&[flat(5), flat(-1), flat(5)]));
}

#[test]
fn a_new_renderer_stands_at_the_start() {
    let track = [flat(100), flat(50)];
    let r = RoadRenderer::new(&track, 32);
    assert_eq!(state(&r), (0, 0, 0));
    assert_eq!(r.near(), 32);
}

#[test]
fn a_new_renderer_skips_segments_without_length() {
    let track = [flat(0), flat(0), flat(50)];
    let r = RoadRenderer::new(&track, 32);
    assert_eq!(state(&r), (0, 2, 0));
}

#[test]
fn advance_moves_through_the_segments() {
    let track = [flat(100), flat(50), flat(0), flat(25)];
    let mut r = RoadRenderer::new(&track, 32);
    r.advance(99);
    assert_eq!(state(&r), (99, 0, 0));
    r.advance(1);
    assert_eq!(state(&r), (100, 1, 100));
    r.advance(49);
    assert_eq!(state(&r), (149, 1, 100));
    r.advance(1);
    assert_eq!(state(&r), (150, 3, 150));
    r.advance(24);
    assert_eq!(state(&r), (174, 3, 150));
}

#[test]
fn advance_saturates_at_the_end_of_the_track() {
    let track = [flat(100), flat(50)];
    let mut r = RoadRenderer::new(&track, 32);
    r.advance(150);
    assert_eq!(state(&r), (150, 2, 150));
    r.advance(1000);
    assert_eq!(state(&r), (1150, 2, 150));
}

#[test]
fn advance_on_an_empty_track_only_counts_distance() {
    let track: [Segment; 0] = [];
    let mut r = RoadRenderer::new(&track, 32);
    assert_eq!(state(&r), (0, 0, 0));
    r.advance(7);
    assert_eq!(state(&r), (7, 0, 0));
}

#[test]
fn advance_by_nothing_changes_nothing() {
    let track = [flat(100), flat(50)];
    let mut r = RoadRenderer::new(&track, 32);
    r.advance(0);
    assert_eq!(state(&r), (0, 0, 0));
    r.advance(120);
    let before = state(&r);
    r.advance(0);
    assert_eq!(state(&r), before);
}

#[test]
fn two_advances_equal_one_advance_by_the_sum() {
    let track = [flat(100), flat(50), flat(0), flat(25), flat(300)];
    let steps = [0, 1, 49, 50, 99, 100, 101, 149, 150, 174, 175, 176, 400, 474, 475, 600];
    for &a in steps.iter() {
        for &b in steps.iter() {
            let mut twice = RoadRenderer::new(&track, 32);
            twice.advance(a);
            twice.advance(b);
            let mut once = RoadRenderer::new(&track, 32);
            once.advance(a + b);
            assert_eq!(state(&twice), state(&once), "a = {}, b = {}", a, b);
        }
    }
}

#[test]
fn set_goes_to_a_distance_from_anywhere() {
    let track = [flat(100), flat(50), flat(25)];
    let mut r = RoadRenderer::new(&track, 32);
    r.advance(160);
    r.set(120);
    assert_eq!(state(&r), (120, 1, 100));
    r.set(0);
    assert_eq!(state(&r), (0, 0, 0));
    r.set(175);
    assert_eq!(state(&r), (175, 3, 175));
    r.set(i32::MAX);
    assert_eq!(state(&r), (i32::MAX, 3, 175));
}

#[test]
fn set_equals_advancing_from_the_start() {
    let track = [flat(100), flat(50), flat(25)];
    let mut t = 0;
    while t < 200 {
        let mut seek = RoadRenderer::new(&track, 32);
        seek.advance(33);
        seek.set(t);
        let mut walk = RoadRenderer::new(&track, 32);
        walk.advance(t);
        assert_eq!(state(&seek), state(&walk), "t = {}", t);
        t += 1;
    }
}

#[test]
fn advance_up_to_the_largest_distance() {
    let track = [flat(100)];
    let mut r = RoadRenderer::new(&track, 32);
    r.advance(i32::MAX - 5);
    r.advance(5);
    assert_eq!(state(&r), (i32::MAX, 1, 100));
}

#[test]
fn a_step_back_inside_the_segment_is_taken() {
    let track = [flat(100), flat(50)];
    let mut r = RoadRenderer::new(&track, 32);
    r.advance(130);
    r.advance(-30);
    assert_eq!(state(&r), (100, 1, 100));
    r.advance(20);
    assert_eq!(state(&r), (120, 1, 100));
}
