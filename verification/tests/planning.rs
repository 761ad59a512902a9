//! Which blurs are drawn and what they read, against the same steps in processor arithmetic.
use backdrop::draw::{DirectXRenderer, FirstStep};
use backdrop::geometry::{
    valid_bounds, BackdropBlur, Bounds, ContentMask, Corners, Point, ScaledPixels, Size,
};
use backdrop::plan::{plan_backdrop_blur, BlurPlan};
use backdrop::single::F32;

fn soft(value: f32) -> F32 {
    F32::from_bits(value.to_bits())
}

fn hard(value: F32) -> f32 {
    f32::from_bits(value.to_bits())
}

fn px(value: f32) -> ScaledPixels {
    ScaledPixels(soft(value))
}

fn bounds(x: f32, y: f32, width: f32, height: f32) -> Bounds {
    Bounds::new(
        Point { x: px(x), y: px(y) },
        Size { width: px(width), height: px(height) },
    )
}

fn all_corners(radius: f32) -> Corners {
    Corners {
        top_left: px(radius),
        top_right: px(radius),
        bottom_right: px(radius),
        bottom_left: px(radius),
    }
}

fn blur(order: u32) -> BackdropBlur {
    BackdropBlur {
        order,
        blur_radius: px(3.),
        bounds: bounds(8., 8., 48., 48.),
        content_mask: ContentMask { bounds: bounds(0., 0., 64., 64.) },
        corner_radii: all_corners(8.),
    }
}

fn renderer(width: u32, height: u32) -> DirectXRenderer {
    DirectXRenderer { width, height, has_devices: true, has_resources: true, has_backdrop: false }
}

/// A rectangle as left, top, width, height.
type Rect = [f32; 4];

fn rect_of(bounds: Bounds) -> Rect {
    [
        hard(bounds.origin.x.0),
        hard(bounds.origin.y.0),
        hard(bounds.size.width.0),
        hard(bounds.size.height.0),
    ]
}

fn intersect(a: Rect, b: Rect) -> Rect {
    let greater = |a: f32, b: f32| if a > b { a } else { b };
    let less = |a: f32, b: f32| if a <= b { a } else { b };
    let left = greater(a[0], b[0]);
    let top = greater(a[1], b[1]);
    let right = greater(less(a[0] + a[2], b[0] + b[2]), left);
    let bottom = greater(less(a[1] + a[3], b[1] + b[3]), top);
    [left, top, right - left, bottom - top]
}

fn valid(rect: Rect) -> bool {
    rect.iter().all(|value| value.is_finite())
        && rect[2] >= 0.
        && rect[3] >= 0.
        && (rect[0] + rect[2]).is_finite()
        && (rect[1] + rect[3]).is_finite()
}

/// The plan in processor arithmetic: sigma, step, left, top, right, bottom.
fn expected(blur: &BackdropBlur, width: u32, height: u32) -> Option<(f32, u32, [u32; 4])> {
    let radius = hard(blur.blur_radius.0);
    let b = rect_of(blur.bounds);
    let c = rect_of(blur.content_mask.bounds);
    let corners = [
        hard(blur.corner_radii.top_left.0),
        hard(blur.corner_radii.top_right.0),
        hard(blur.corner_radii.bottom_right.0),
        hard(blur.corner_radii.bottom_left.0),
    ];
    if !radius.is_finite()
        || !valid(b)
        || !valid(c)
        || !corners.iter().all(|value| value.is_finite() && *value >= 0.)
    {
        return None;
    }
    let visible = intersect(intersect(b, c), [0., 0., width as f32, height as f32]);
    if visible[2] <= 0. || visible[3] <= 0. {
        return None;
    }
    let sigma = radius.clamp(1., 64.);
    let padding = (sigma * 3.).ceil() + 2.;
    let x0 = (visible[0] - padding).floor().max(0.) as u32;
    let y0 = (visible[1] - padding).floor().max(0.) as u32;
    let x1 = (visible[0] + visible[2] + padding).ceil().min(width as f32) as u32;
    let y1 = (visible[1] + visible[3] + padding).ceil().min(height as f32) as u32;
    if x1 <= x0 || y1 <= y0 {
        return None;
    }
    Some((sigma, ((sigma / 8.) as u32).clamp(1, 4), [x0, y0, x1, y1]))
}

fn check(blur: &BackdropBlur, width: u32, height: u32) -> bool {
    let plan = plan_backdrop_blur(blur, width, height);
    match expected(blur, width, height) {
        None => assert!(plan.is_none(), "{:?}", blur),
        Some((sigma, downsample, [left, top, right, bottom])) => assert_eq!(
            plan,
            Some(BlurPlan { sigma: soft(sigma), downsample, left, top, right, bottom }),
            "{:?}",
            blur
        ),
    }
    plan.is_some()
}

struct Random(u64);

impl Random {
    fn next(&mut self) -> u32 {
        self.0 = self.0.wrapping_mul(6364136223846793005).wrapping_add(1442695040888963407);
        (self.0 >> 32) as u32
    }

    fn within(&mut self, low: f32, high: f32) -> f32 {
        low + (high - low) * (self.next() as f32 / u32::MAX as f32)
    }
}

#[test]
fn plans_equal_the_direct_computation() {
    let mut random = Random(3);
    let mut drawn = 0;
    for _ in 0..4000 {
        let width = 1 + random.next() % 400;
        let height = 1 + random.next() % 400;
        let mut region = blur(0);
        region.blur_radius = px(random.within(-2., 80.));
        region.bounds = bounds(
            random.within(-200., 500.),
            random.within(-200., 500.),
            random.within(0., 400.),
            random.within(0., 400.),
        );
        region.content_mask.bounds = bounds(
            random.within(-200., 300.),
            random.within(-200., 300.),
            random.within(0., 500.),
            random.within(0., 500.),
        );
        if check(&region, width, height) {
            drawn += 1;
        }
    }
    assert!(drawn > 300, "{}", drawn);
}

#[test]
fn plans_of_odd_bits_equal_the_direct_computation() {
    let mut random = Random(5);
    for _ in 0..4000 {
        let mut any = || px(f32::from_bits(random.next()));
        let mut region = blur(0);
        region.blur_radius = any();
        region.bounds.origin.x = any();
        region.bounds.size.width = any();
        region.content_mask.bounds.origin.y = any();
        region.content_mask.bounds.size.height = any();
        check(&region, 64, 64);
        check(&region, u32::MAX, 0x100_0003);
    }
}

#[test]
fn a_clip_whose_width_overflows_still_meets_the_window() {
    // The clip starts 1.5 * 2^104 left of zero and is as wide as can be: the overlap of both
    // rectangles, measured from its own start, is infinite.
    let start = -f32::from_bits(0x73c0_0000);
    let mut region = blur(0);
    region.bounds = bounds(start, 8., f32::MAX, 48.);
    region.content_mask.bounds = bounds(start, 0., f32::MAX, 64.);
    let overlap = region.bounds.intersect(&region.content_mask.bounds);
    assert!(hard(overlap.size.width.0).is_infinite());
    assert!(check(&region, 64, 64));
}

#[test]
fn the_usual_blur_reads_the_whole_small_window() {
    let plan = plan_backdrop_blur(&blur(1), 64, 64).unwrap();
    assert_eq!(
        plan,
        BlurPlan { sigma: soft(3.), downsample: 1, left: 0, top: 0, right: 64, bottom: 64 }
    );
}

#[test]
fn blurs_at_window_edges_read_around_themselves() {
    let mut region = blur(0);
    region.content_mask.bounds = bounds(0., 0., 193., 131.);
    region.corner_radii = all_corners(4.);
    // Three sigma and two pixels make eleven on each side.
    let cases = [
        (bounds(166., 108., 24., 20.), [155, 97, 193, 131]),
        (bounds(0., 0., 21., 18.), [0, 0, 32, 29]),
        (bounds(80., 60., 8., 9.), [69, 49, 99, 80]),
    ];
    for (rect, [left, top, right, bottom]) in cases {
        region.bounds = rect;
        let plan = plan_backdrop_blur(&region, 193, 131).unwrap();
        assert_eq!([plan.left, plan.top, plan.right, plan.bottom], [left, top, right, bottom]);
    }
}

#[test]
fn blur_radii_from_none_to_the_largest_are_drawn() {
    let cases = [
        (0., 1., 1), (2.5, 2.5, 1), (16., 16., 2), (24., 24., 3), (32., 32., 4), (64., 64., 4),
        (180., 64., 4), (f32::MAX, 64., 4),
    ];
    for (radius, sigma, downsample) in cases {
        let region = BackdropBlur {
            blur_radius: px(radius),
            bounds: bounds(0., 0., 65., 67.),
            content_mask: ContentMask { bounds: bounds(0., 0., 65., 67.) },
            corner_radii: all_corners(0.),
            ..blur(0)
        };
        let plan = plan_backdrop_blur(&region, 65, 67).unwrap();
        assert_eq!(plan.sigma, soft(sigma));
        assert_eq!(plan.downsample, downsample);
        assert_eq!([plan.left, plan.top, plan.right, plan.bottom], [0, 0, 65, 67]);
    }
}

#[test]
fn offscreen_blurs_are_skipped() {
    let outside = [
        bounds(-100., -100., 8., 8.),
        bounds(64., 8., 8., 8.),
        bounds(8., 64., 8., 8.),
        bounds(-8., 8., 8., 8.),
        bounds(8., 8., 0., 8.),
        bounds(8., 8., 8., 0.),
    ];
    for rect in outside {
        let region = BackdropBlur { bounds: rect, ..blur(0) };
        assert_eq!(renderer(64, 64).draw_backdrop_blur(&region), FirstStep::Skip);
        let clipped = BackdropBlur { content_mask: ContentMask { bounds: rect }, ..blur(0) };
        assert_eq!(renderer(64, 64).draw_backdrop_blur(&clipped), FirstStep::Skip);
    }
    let mut apart = blur(0);
    apart.bounds = bounds(0., 0., 10., 10.);
    apart.content_mask.bounds = bounds(20., 0., 10., 10.);
    assert_eq!(renderer(64, 64).draw_backdrop_blur(&apart), FirstStep::Skip);
    assert_eq!(renderer(0, 0).draw_backdrop_blur(&blur(0)), FirstStep::Skip);
}

#[test]
fn blurs_without_a_finite_radius_are_skipped() {
    for sigma in [f32::NAN, f32::INFINITY, f32::NEG_INFINITY] {
        let region = BackdropBlur { blur_radius: px(sigma), ..blur(0) };
        assert_eq!(renderer(64, 64).draw_backdrop_blur(&region), FirstStep::Skip);
    }
}

#[test]
fn blurs_with_invalid_geometry_are_skipped() {
    for value in [f32::NAN, f32::INFINITY, f32::NEG_INFINITY, -1.] {
        for field in 0..4 {
            let mut region = blur(0);
            match field {
                0 => region.bounds.size.width = px(value),
                1 => region.content_mask.bounds.size.height = px(value),
                2 => region.corner_radii.top_left = px(value),
                _ => {
                    region.bounds.origin.x = px(if value == -1. { f32::INFINITY } else { value })
                }
            }
            assert_eq!(renderer(64, 64).draw_backdrop_blur(&region), FirstStep::Skip);
        }
    }
    let overflowing = BackdropBlur { bounds: bounds(f32::MAX, 0., f32::MAX, 10.), ..blur(0) };
    assert_eq!(renderer(64, 64).draw_backdrop_blur(&overflowing), FirstStep::Skip);
}

#[test]
fn every_corner_radius_is_checked() {
    for corner in 0..4 {
        let mut region = blur(0);
        match corner {
            0 => region.corner_radii.top_left = px(-0.5),
            1 => region.corner_radii.top_right = px(-0.5),
            2 => region.corner_radii.bottom_right = px(-0.5),
            _ => region.corner_radii.bottom_left = px(-0.5),
        }
        assert!(plan_backdrop_blur(&region, 64, 64).is_none());
    }
    let mut region = blur(0);
    region.corner_radii = all_corners(-0.);
    assert!(plan_backdrop_blur(&region, 64, 64).is_some());
}

#[test]
fn bounds_are_valid_to_their_far_edges() {
    assert!(valid_bounds(bounds(0., 0., 64., 64.)));
    assert!(valid_bounds(bounds(-5., -5., 0., -0.)));
    assert!(!valid_bounds(bounds(f32::MAX, 0., f32::MAX, 10.)));
    assert!(!valid_bounds(bounds(0., f32::MAX, 10., f32::MAX)));
    assert!(!valid_bounds(bounds(0., 0., -1., 10.)));
    assert!(!valid_bounds(bounds(0., 0., 10., f32::NAN)));
    assert!(!valid_bounds(bounds(f32::INFINITY, 0., 10., 10.)));
    assert_eq!(hard(bounds(1., 2., 3., 4.).right().0), 4.);
    assert_eq!(hard(bounds(1., 2., 3., 4.).bottom().0), 6.);
}

#[test]
fn what_is_missing_is_reported_in_order() {
    let plan = plan_backdrop_blur(&blur(0), 64, 64).unwrap();
    let mut state = DirectXRenderer { has_devices: false, has_resources: false, ..renderer(64, 64) };
    assert_eq!(state.draw_backdrop_blur(&blur(0)), FirstStep::DevicesMissing);
    state.has_devices = true;
    assert_eq!(state.draw_backdrop_blur(&blur(0)), FirstStep::ResourcesMissing);
    state.has_resources = true;
    assert_eq!(state.draw_backdrop_blur(&blur(0)), FirstStep::CreateResources(plan));
    state.has_backdrop = true;
    assert_eq!(state.draw_backdrop_blur(&blur(0)), FirstStep::Draw(plan));
    // Nothing is missed by a blur that is not drawn.
    let hidden = BackdropBlur { bounds: bounds(-100., -100., 8., 8.), ..blur(0) };
    state.has_devices = false;
    assert_eq!(state.draw_backdrop_blur(&hidden), FirstStep::Skip);
}

#[test]
fn fractional_blurs_read_every_tap() {
    for frame in 0..12 {
        let offset = frame as f32 * 7.25;
        let mut region = blur(1);
        region.bounds = bounds(offset - 12., 4.25, 100., 80.);
        region.content_mask.bounds = bounds(0., 0., 193., 131.);
        region.blur_radius = px(if frame % 3 == 0 { 16. } else { 3. });
        assert!(check(&region, 193, 131));
        let plan = plan_backdrop_blur(&region, 193, 131).unwrap();
        let reach = if frame % 3 == 0 { 48. } else { 9. };
        let left = (offset - 12.).max(0.);
        let right = (offset + 88.).min(193.);
        assert!(plan.left == 0 || plan.left as f32 + reach + 1. <= left);
        assert!(plan.right == 193 || plan.right as f32 >= right + reach + 1.);
    }
}

#[test]
fn blurs_far_out_in_a_huge_window_are_drawn() {
    // Above 2^31 values are 256 apart, far more than the padding.
    let far = 2147483648.;
    let mut region = blur(0);
    region.bounds = bounds(far, 0., 256., 8.);
    region.content_mask.bounds = bounds(0., 0., 4294967040., 64.);
    assert!(check(&region, u32::MAX, 64));
    let plan = plan_backdrop_blur(&region, u32::MAX, 64).unwrap();
    assert_eq!([plan.left, plan.right], [2147483648, 2147483904]);
}
