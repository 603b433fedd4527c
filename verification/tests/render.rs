use poisjuoksu::{Painter, RoadRenderer, Segment, SideInclination, FP_POS};
use std::cell::RefCell;

const W: i32 = 320;
const H: i32 = 240;

const ROAD_WIDTH: i32 = 50 << (FP_POS * 2);
const ROAD_EDGE_X0: i32 = 41 << (FP_POS * 2);
const ROAD_EDGE_X1: i32 = 45 << (FP_POS * 2);
const ROAD_LINE_WIDTH: i32 = 2 << (FP_POS * 2);
const ROAD_COLOR: u16 = 0x3187;
const ROAD_EDGE_COLOR: u16 = 0xBDB5;
const GROUND_COLOR: u16 = 0x10C4;
const GROUND_ALT_COLOR: u16 = 0x1924;

/// A pixel surface that remembers everything that happens to it.
struct Screen {
    w: i32,
    h: i32,
    half_width: i32,
    colors: Vec<u16>,
    hits: Vec<u32>,
    outside: u32,
    draws: Vec<(i32, i32, u16)>,
    road_queries: RefCell<Vec<(i32, i32)>>,
}

impl Screen {
    fn sized(w: i32, h: i32, half_width: i32) -> Screen {
        let pixels = (w.max(0) as usize) * (h.max(0) as usize);
        Screen {
            w,
            h,
            half_width,
            colors: vec![0; pixels],
            hits: vec![0; pixels],
            outside: 0,
            draws: Vec::new(),
            road_queries: RefCell::new(Vec::new()),
        }
    }

    fn new() -> Screen {
        Screen::sized(W, H, ROAD_WIDTH)
    }

    fn every_pixel_was_drawn_once(&self) -> bool {
        self.outside == 0 && self.hits.iter().all(|&n| n == 1)
    }

    fn color(&self, x: i32, y: i32) -> u16 {
        self.colors[(y * self.w + x) as usize]
    }

    fn checksum(&self) -> u64 {
        let mut sum: u64 = 0;
        for &c in self.colors.iter() {
            sum = sum.wrapping_mul(1099511628211).wrapping_add(c as u64);
        }
        sum
    }

    fn sky(y: i32) -> u16 {
        let dither = if y & 0xF < 0x8 { y & 1 } else { 0 };
        let r = 16 - (y >> 4) + dither;
        let g = 19 - (y >> 4) + dither;
        let b = 14 - (y >> 5) + dither;
        ((r << 11) | (g << 5) | b) as u16
    }

    fn is_road(c: u16) -> bool {
        c == ROAD_COLOR || c == ROAD_EDGE_COLOR
    }

    fn is_ground(c: u16) -> bool {
        c == GROUND_COLOR || c == GROUND_ALT_COLOR
    }
}

impl Painter for Screen {
    type ColorType = u16;

    fn draw(&mut self, x: i32, y: i32, color: &u16) {
        self.draws.push((x, y, *color));
        if 0 <= x && x < self.w && 0 <= y && y < self.h {
            let i = (y * self.w + x) as usize;
            self.colors[i] = *color;
            self.hits[i] += 1;
        } else {
            self.outside += 1;
        }
    }

    fn sky_color(&self, y: i32) -> u16 {
        Screen::sky(y)
    }

    fn road_color(&self, tx: i32, t: i32) -> u16 {
        self.road_queries.borrow_mut().push((tx, t));
        let atx = if tx < 0 { tx.wrapping_neg() } else { tx };
        if atx < ROAD_EDGE_X1 && atx >= ROAD_EDGE_X0
            || atx < ROAD_LINE_WIDTH && (t & 0xFFF) < 0x800
        {
            ROAD_EDGE_COLOR
        } else {
            ROAD_COLOR
        }
    }

    fn ground_color(&self, _tx: i32, t: i32) -> u16 {
        if (t & 0x3FFF) < 0x2000 {
            GROUND_COLOR
        } else {
            GROUND_ALT_COLOR
        }
    }

    fn road_width(&self) -> i32 {
        self.half_width
    }
}

fn example_track(style: (SideInclination, SideInclination)) -> [Segment; 4] {
    [
        Segment::new(style, 200 << FP_POS, -10, 0),
        Segment::new(style, 100 << FP_POS, 10, -10),
        Segment::new(style, 100 << FP_POS, 0, 10),
        Segment::new(style, 65536 << FP_POS, 0, 0),
    ]
}

fn straight(style: (SideInclination, SideInclination)) -> [Segment; 1] {
    [Segment::new(style, 65536 << FP_POS, 0, 0)]
}

fn frame(track: &[Segment], near: i32, t: i32, camera: (i32, i32)) -> Screen {
    let mut r = RoadRenderer::new(track, near);
    r.set(t);
    let mut screen = Screen::new();
    r.render(&mut screen, (W, H), camera.0, camera.1);
    screen
}

fn all_styles() -> [SideInclination; 3] {
    [SideInclination::Uphill, SideInclination::Flat, SideInclination::Downhill]
}

#[test]
fn render_draws_every_pixel_once_whatever_the_shoulders() {
    for &left in all_styles().iter() {
        for &right in all_styles().iter() {
            let track = example_track((left, right));
            let mut t = 0;
            while t < 420 {
                for &camera_x in [0, -10000, 30000].iter() {
                    for &camera_y in [10000, 3000].iter() {
                        let screen = frame(&track, 32, t << FP_POS, (camera_x, camera_y));
                        assert!(
                            screen.every_pixel_was_drawn_once(),
                            "t = {}, camera = ({}, {})",
                            t,
                            camera_x,
                            camera_y
                        );
                        assert_eq!(screen.draws.len(), (W * H) as usize);
                    }
                }
                t += 37;
            }
        }
    }
}

#[test]
fn render_draws_every_pixel_once_with_odd_cameras_and_near_planes() {
    let track = example_track((SideInclination::Uphill, SideInclination::Uphill));
    for &near in [1, 7, 32, 200, 256, 257, 5000, -32].iter() {
        for &camera_y in [0, 1, -10000, 100000, i32::MAX, i32::MIN].iter() {
            for &camera_x in [0, 123456789, i32::MIN].iter() {
                let screen = frame(&track, near, 150 << FP_POS, (camera_x, camera_y));
                assert!(
                    screen.every_pixel_was_drawn_once(),
                    "near = {}, camera = ({}, {})",
                    near,
                    camera_x,
                    camera_y
                );
            }
        }
    }
}

#[test]
fn render_of_the_example_track_from_its_start() {
    let track = example_track((SideInclination::Downhill, SideInclination::Uphill));
    let screen = frame(&track, 32, 0, (0, 10000));
    assert!(screen.every_pixel_was_drawn_once());
    assert_eq!(screen.road_queries.borrow().len(), 17937);
    assert_eq!(screen.checksum(), 15828070849577861106);
}

#[test]
fn render_of_the_example_track_from_the_side() {
    let track = example_track((SideInclination::Downhill, SideInclination::Uphill));
    let screen = frame(&track, 32, 150 << FP_POS, (-10000, 10000));
    assert_eq!(screen.road_queries.borrow().len(), 15876);
    assert_eq!(screen.checksum(), 6008908330249917328);
}

#[test]
fn render_of_a_curved_segment_with_flat_shoulders() {
    let track = example_track((SideInclination::Flat, SideInclination::Flat));
    let screen = frame(&track, 32, 250 << FP_POS, (7000, 3000));
    assert_eq!(screen.road_queries.borrow().len(), 37255);
    assert_eq!(screen.checksum(), 8220899920451070955);
}

#[test]
fn render_with_walls_on_both_sides() {
    let track = example_track((SideInclination::Uphill, SideInclination::Uphill));
    let screen = frame(&track, 32, 111 << FP_POS, (0, 10000));
    assert_eq!(screen.road_queries.borrow().len(), 18248);
    assert_eq!(screen.checksum(), 6090160744871589615);
    let screen = frame(&track, 32, 0, (0, 10000));
    assert!(screen.every_pixel_was_drawn_once());
    assert_eq!(screen.road_queries.borrow().len(), 17937);
    assert_eq!(screen.checksum(), 5183633223126686271);
}

#[test]
fn render_with_a_wall_on_the_left_and_a_drop_on_the_right() {
    let track = example_track((SideInclination::Uphill, SideInclination::Downhill));
    let screen = frame(&track, 32, 40 << FP_POS, (0, 10000));
    assert!(screen.every_pixel_was_drawn_once());
    assert_eq!(screen.road_queries.borrow().len(), 18136);
    assert_eq!(screen.checksum(), 10622087218164747506);
}

#[test]
fn render_with_drops_on_both_sides() {
    let track = example_track((SideInclination::Downhill, SideInclination::Downhill));
    let screen = frame(&track, 32, 310 << FP_POS, (2000, 10000));
    assert_eq!(screen.road_queries.borrow().len(), 8057);
    assert_eq!(screen.checksum(), 1971720122442440476);
}

#[test]
fn a_straight_flat_road_fills_the_lower_half_of_the_screen() {
    let track = straight((SideInclination::Flat, SideInclination::Flat));
    let screen = frame(&track, 32, 0, (0, 10000));
    assert!(screen.every_pixel_was_drawn_once());
    assert_eq!(screen.checksum(), 9833690813262519647);
    // Sky from the top down to the middle row, road and ground below.
    for y in 0..H {
        for x in 0..W {
            let c = screen.color(x, y);
            if y <= H / 2 {
                assert_eq!(c, Screen::sky(y), "x = {}, y = {}", x, y);
            } else {
                assert!(Screen::is_road(c) || Screen::is_ground(c), "x = {}, y = {}", x, y);
            }
        }
    }
    // The road is centred and narrows toward the horizon.
    let road_in = |y: i32| -> Vec<i32> {
        (0..W).filter(|&x| Screen::is_road(screen.color(x, y))).collect()
    };
    let bottom = road_in(H - 1);
    assert_eq!((bottom[0], bottom[bottom.len() - 1], bottom.len()), (8, 312, 305));
    let far = road_in(130);
    assert_eq!((far[0], far[far.len() - 1], far.len()), (148, 172, 25));
}

#[test]
fn a_straight_flat_road_is_asked_for_growing_distances_row_by_row() {
    let track = straight((SideInclination::Flat, SideInclination::Flat));
    let screen = frame(&track, 32, 0, (0, 10000));
    let queries = screen.road_queries.borrow();
    assert_eq!(queries.len(), 18283);
    assert_eq!(queries[0], (-3269824, 2689));
    assert_eq!(queries[queries.len() - 1], (2560000, 320000));
    let mut distances: Vec<i32> = Vec::new();
    for &(_, t) in queries.iter() {
        if distances.last() != Some(&t) {
            distances.push(t);
        }
    }
    assert_eq!(distances.len(), 119);
    assert_eq!(&distances[..5], &[2689, 2711, 2735, 2758, 2782]);
    assert_eq!(&distances[114..], &[64000, 80000, 106666, 160000, 320000]);
    for pair in distances.windows(2) {
        assert!(pair[0] < pair[1]);
    }
}

#[test]
fn a_straight_flat_road_is_drawn_from_the_bottom_row_up() {
    let track = straight((SideInclination::Flat, SideInclination::Flat));
    let screen = frame(&track, 32, 0, (0, 10000));
    let first_sky = screen.draws.iter().position(|&(_, y, _)| y <= H / 2).unwrap();
    assert_eq!(first_sky, (119 * W) as usize);
    let mut last_row = H;
    for &(_, y, _) in screen.draws[..first_sky].iter() {
        assert!(y == last_row || y == last_row - 1);
        last_row = y;
    }
    assert_eq!(last_row, H / 2 + 1);
    // the sky follows, top row first
    assert_eq!(screen.draws[first_sky], (0, 0, Screen::sky(0)));
    assert_eq!(screen.draws[screen.draws.len() - 1], (W - 1, H / 2, Screen::sky(H / 2)));
}

#[test]
fn a_camera_on_the_ground_sees_only_sky() {
    let track = straight((SideInclination::Flat, SideInclination::Flat));
    let screen = frame(&track, 32, 0, (0, 0));
    assert!(screen.every_pixel_was_drawn_once());
    assert_eq!(screen.road_queries.borrow().len(), 0);
    assert_eq!(screen.checksum(), 13824657824296448);
    for y in 0..H {
        for x in 0..W {
            assert_eq!(screen.color(x, y), Screen::sky(y));
        }
    }
}

#[test]
fn render_without_segments_draws_only_sky() {
    let track: [Segment; 0] = [];
    let screen = frame(&track, 32, 0, (0, 10000));
    assert!(screen.every_pixel_was_drawn_once());
    assert_eq!(screen.road_queries.borrow().len(), 0);
    for y in 0..H {
        for x in 0..W {
            assert_eq!(screen.color(x, y), Screen::sky(y));
            assert_eq!(screen.draws[(y * W + x) as usize], (x, y, Screen::sky(y)));
        }
    }
}

#[test]
fn render_past_the_end_of_the_track_draws_only_sky() {
    let track = [
        Segment::new((SideInclination::Uphill, SideInclination::Uphill), 100 << FP_POS, 5, 5),
        Segment::new((SideInclination::Flat, SideInclination::Downhill), 50 << FP_POS, 0, 0),
    ];
    for &t in [150 << FP_POS, (150 << FP_POS) + 1, i32::MAX].iter() {
        let screen = frame(&track, 32, t, (0, 10000));
        assert!(screen.every_pixel_was_drawn_once());
        assert_eq!(screen.road_queries.borrow().len(), 0);
        for y in 0..H {
            for x in 0..W {
                assert_eq!(screen.color(x, y), Screen::sky(y));
            }
        }
    }
    // just before the end there still is road
    let screen = frame(&track, 32, (150 << FP_POS) - 4000, (0, 10000));
    assert!(screen.every_pixel_was_drawn_once());
    assert!(screen.road_queries.borrow().len() > 0);
}

#[test]
fn render_with_a_near_plane_of_zero_draws_only_sky() {
    let track = example_track((SideInclination::Uphill, SideInclination::Flat));
    let screen = frame(&track, 0, 0, (0, 10000));
    assert!(screen.every_pixel_was_drawn_once());
    assert_eq!(screen.road_queries.borrow().len(), 0);
    for y in 0..H {
        for x in 0..W {
            assert_eq!(screen.color(x, y), Screen::sky(y));
        }
    }
}

#[test]
fn render_on_a_screen_without_pixels_draws_nothing() {
    let track = example_track((SideInclination::Uphill, SideInclination::Flat));
    for &size in [(0, 0), (0, 240), (320, 0), (-5, 240), (320, -1)].iter() {
        let mut r = RoadRenderer::new(&track, 32);
        let mut screen = Screen::sized(size.0, size.1, ROAD_WIDTH);
        r.render(&mut screen, size, 0, 10000);
        assert_eq!(screen.draws.len(), 0);
    }
}

#[test]
fn render_on_small_and_odd_screens_draws_every_pixel_once() {
    let track = example_track((SideInclination::Uphill, SideInclination::Uphill));
    for &size in [(1, 1), (1, 240), (320, 1), (7, 5), (33, 17), (640, 480)].iter() {
        let mut r = RoadRenderer::new(&track, 32);
        r.set(90 << FP_POS);
        let mut screen = Screen::sized(size.0, size.1, ROAD_WIDTH);
        r.render(&mut screen, size, -2000, 10000);
        assert!(screen.every_pixel_was_drawn_once(), "size = {:?}", size);
    }
}

#[test]
fn render_with_odd_road_widths_draws_every_pixel_once() {
    let track = example_track((SideInclination::Uphill, SideInclination::Downhill));
    for &half_width in [0, 1, -1, -ROAD_WIDTH, i32::MAX, i32::MIN].iter() {
        let mut r = RoadRenderer::new(&track, 32);
        r.set(20 << FP_POS);
        let mut screen = Screen::sized(W, H, half_width);
        r.render(&mut screen, (W, H), 0, 10000);
        assert!(screen.every_pixel_was_drawn_once(), "half width = {}", half_width);
    }
}

#[test]
fn advance_by_nothing_leaves_the_frame_as_it_is() {
    let track = example_track((SideInclination::Downhill, SideInclination::Uphill));
    let mut plain = RoadRenderer::new(&track, 32);
    plain.advance(210 << FP_POS);
    let mut first = Screen::new();
    plain.render(&mut first, (W, H), -3000, 10000);

    let mut nudged = RoadRenderer::new(&track, 32);
    nudged.advance(210 << FP_POS);
    nudged.advance(0);
    let mut second = Screen::new();
    nudged.render(&mut second, (W, H), -3000, 10000);

    assert_eq!(
        (plain.distance(), plain.segment(), plain.segment_start()),
        (nudged.distance(), nudged.segment(), nudged.segment_start())
    );
    assert_eq!(first.draws, second.draws);
    assert_eq!(first.colors, second.colors);
}

#[test]
fn render_leaves_the_position_as_it_is() {
    let track = example_track((SideInclination::Downhill, SideInclination::Uphill));
    let mut r = RoadRenderer::new(&track, 32);
    r.advance(210 << FP_POS);
    let before = (r.distance(), r.segment(), r.segment_start(), r.near());
    let mut screen = Screen::new();
    r.render(&mut screen, (W, H), 0, 10000);
    assert_eq!((r.distance(), r.segment(), r.segment_start(), r.near()), before);
}

#[test]
fn render_twice_draws_the_same_frame_twice() {
    let track = example_track((SideInclination::Uphill, SideInclination::Uphill));
    let mut r = RoadRenderer::new(&track, 32);
    r.advance(30 << FP_POS);
    let mut screen = Screen::new();
    r.render(&mut screen, (W, H), 0, 10000);
    let first: Vec<(i32, i32, u16)> = screen.draws.clone();
    r.render(&mut screen, (W, H), 0, 10000);
    assert_eq!(screen.draws.len(), 2 * first.len());
    assert_eq!(&screen.draws[..first.len()], &first[..]);
    assert_eq!(&screen.draws[first.len()..], &first[..]);
    assert!(screen.hits.iter().all(|&n| n == 2));
}

#[test]
fn a_wall_on_the_left_hides_what_lies_behind_it() {
    // Far to the right of a straight road: the wall on the left rises over
    // the rows above, one column less per row.
    let track = straight((SideInclination::Uphill, SideInclination::Flat));
    let screen = frame(&track, 32, 0, (40000, 10000));
    assert!(screen.every_pixel_was_drawn_once());
    let ground_in = |y: i32| -> i32 {
        (0..W).filter(|&x| Screen::is_ground(screen.color(x, y))).count() as i32
    };
    // above the horizon only the wall can be ground
    let mut y = H / 2;
    let mut last = ground_in(y);
    assert!(last > 0);
    while y > 0 && last > 0 {
        y -= 1;
        let now = ground_in(y);
        assert!(now == last - 1 || now == last, "row {}", y);
        for x in 0..now {
            assert!(Screen::is_ground(screen.color(x, y)));
        }
        last = now;
    }
    // with flat shoulders the same rows are all sky
    let flat = straight((SideInclination::Flat, SideInclination::Flat));
    let open = frame(&flat, 32, 0, (40000, 10000));
    for y in 0..=H / 2 {
        for x in 0..W {
            assert_eq!(open.color(x, y), Screen::sky(y));
        }
    }
}

#[test]
fn a_wall_on_the_right_hides_what_lies_behind_it() {
    let track = straight((SideInclination::Flat, SideInclination::Uphill));
    let screen = frame(&track, 32, 0, (-40000, 10000));
    assert!(screen.every_pixel_was_drawn_once());
    let mut y = H / 2;
    let ground_in = |y: i32| -> i32 {
        (0..W).filter(|&x| Screen::is_ground(screen.color(x, y))).count() as i32
    };
    let mut last = ground_in(y);
    assert!(last > 0);
    while y > 0 && last > 0 {
        y -= 1;
        let now = ground_in(y);
        assert!(now == last - 1 || now == last, "row {}", y);
        for x in (W - now)..W {
            assert!(Screen::is_ground(screen.color(x, y)));
        }
        last = now;
    }
}

#[test]
fn a_drop_beside_the_road_shows_the_sky() {
    let track = straight((SideInclination::Downhill, SideInclination::Downhill));
    let screen = frame(&track, 32, 0, (0, 10000));
    assert!(screen.every_pixel_was_drawn_once());
    for y in 0..H {
        for x in 0..W {
            let c = screen.color(x, y);
            assert!(c == Screen::sky(y) || Screen::is_road(c), "x = {}, y = {}", x, y);
        }
    }
    let bottom: Vec<i32> = (0..W).filter(|&x| Screen::is_road(screen.color(x, H - 1))).collect();
    assert_eq!((bottom[0], bottom[bottom.len() - 1]), (8, 312));
}

#[test]
fn a_drop_behind_a_wall_is_filled_with_ground() {
    // The first segment raises a wall on the left; the second one drops
    // away there. Where the wall already took pixels of a row, the rest of
    // the row's left side is ground, so that no pixel is left out.
    let track = [
        Segment::new(
            (SideInclination::Uphill, SideInclination::Flat),
            20 << FP_POS,
            0,
            0,
        ),
        Segment::new(
            (SideInclination::Downhill, SideInclination::Flat),
            65536 << FP_POS,
            0,
            0,
        ),
    ];
    let screen = frame(&track, 32, 0, (0, 10000));
    assert!(screen.every_pixel_was_drawn_once());
    let mut rows_with_ground_on_the_left = 0;
    for y in (H / 2 + 1)..H {
        if Screen::is_ground(screen.color(0, y)) {
            rows_with_ground_on_the_left += 1;
            let mut x = 0;
            while !Screen::is_road(screen.color(x, y)) {
                assert!(Screen::is_ground(screen.color(x, y)), "x = {}, y = {}", x, y);
                x += 1;
            }
        }
    }
    assert!(rows_with_ground_on_the_left > 0);
}

#[test]
fn render_never_draws_outside_the_screen() {
    let track = example_track((SideInclination::Uphill, SideInclination::Uphill));
    let mut t = 0;
    while t < 420 {
        let screen = frame(&track, 32, t << FP_POS, (123456, 10000));
        assert_eq!(screen.outside, 0);
        for &(x, y, _) in screen.draws.iter() {
            assert!(0 <= x && x < W && 0 <= y && y < H);
        }
        t += 29;
    }
}
