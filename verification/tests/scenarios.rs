use stroke_contrast::candidates::WidthCandidates;
use stroke_contrast::classifier::Shape;
use stroke_contrast::error::MeasureError;
use stroke_contrast::geometry::{Point, Segment};
use stroke_contrast::reader::{Strategy, WidthReader};

const STEPS: i32 = 64;

fn outline(points: &[(i32, i32)]) -> Vec<Segment> {
    let mut out = Vec::new();
    for i in 0..points.len() {
        let a = points[i];
        let b = points[(i + 1) % points.len()];
        out.push(Segment::Line(
            Point { x: a.0 * STEPS, y: a.1 * STEPS },
            Point { x: b.0 * STEPS, y: b.1 * STEPS },
        ));
    }
    out
}

fn reader_for(segments: Vec<Segment>) -> WidthReader {
    assert!(Shape::accepts(&segments));
    WidthReader::new(segments, STEPS).unwrap()
}

fn units(width: Option<i64>) -> f64 {
    width.unwrap() as f64 / STEPS as f64
}

fn l_shape() -> Vec<Segment> {
    outline(&[(0, 0), (100, 0), (100, 20), (10, 20), (10, 100), (0, 100)])
}

fn plus_sign() -> Vec<Segment> {
    let mut segments = outline(&[(45, 0), (55, 0), (55, 100), (45, 100)]);
    segments.extend(outline(&[(0, 45), (100, 45), (100, 55), (0, 55)]));
    segments
}

fn same(a: &WidthCandidates, b: &WidthCandidates) -> bool {
    a.rays == b.rays
        && a.ribs == b.ribs
        && a.min_width == b.min_width
        && a.max_width == b.max_width
        && a.inverted_fill_suspected == b.inverted_fill_suspected
}

#[test]
fn l_shape_reports_both_arm_widths() {
    let found = reader_for(l_shape()).cast_rays_around_center_of_mass().unwrap();
    assert!((units(found.min_width) - 10.0).abs() <= 1.0);
    assert!((units(found.max_width) - 20.0).abs() <= 1.0);
    assert_eq!(found.min_width, Some(639));
    assert_eq!(found.max_width, Some(1278));
    assert_eq!(found.rays.len(), 360);
    assert!(found.ribs.len() <= 360);
    assert!(!found.inverted_fill_suspected);
}

#[test]
fn l_shape_all_segments_reports_both_arm_widths() {
    let found = reader_for(l_shape()).cast_rays_from_all_segments();
    assert!((units(found.min_width) - 10.0).abs() <= 1.0);
    assert!((units(found.max_width) - 20.0).abs() <= 1.0);
    assert_eq!(found.rays.len(), 60);
}

#[test]
fn plus_sign_has_its_centre_of_mass_in_ink() {
    let found = reader_for(plus_sign()).cast_rays_around_center_of_mass();
    assert!(matches!(found, Err(MeasureError::UnsupportedShape)));
}

#[test]
fn plus_sign_arms_are_equally_wide() {
    let found = reader_for(plus_sign()).cast_rays_from_all_segments();
    assert!((units(found.min_width) - 10.0).abs() <= 1.0);
    assert!((units(found.max_width) - 10.0).abs() <= 1.0);
    let in_arm = |x0: i32, y0: i32, x1: i32, y1: i32| {
        found.ribs.iter().any(|f| {
            2 * x0 * STEPS <= f.centre_doubled.x
                && f.centre_doubled.x <= 2 * x1 * STEPS
                && 2 * y0 * STEPS <= f.centre_doubled.y
                && f.centre_doubled.y <= 2 * y1 * STEPS
        })
    };
    assert!(in_arm(45, 0, 55, 40));
    assert!(in_arm(45, 60, 55, 100));
    assert!(in_arm(0, 45, 40, 55));
    assert!(in_arm(60, 45, 100, 55));
}

#[test]
fn rectangle_is_as_wide_as_its_short_side() {
    let found = reader_for(outline(&[(0, 0), (10, 0), (10, 60), (0, 60)])).cast_rays_from_all_segments();
    assert!(!found.ribs.is_empty());
    assert!((units(found.max_width) - 10.0).abs() <= 1.0);
    for fit in found.ribs.iter() {
        assert!(fit.diameter <= 10 * STEPS as i64);
        assert!(fit.diameter > 2 * STEPS as i64);
    }
}

#[test]
fn measuring_twice_gives_the_same() {
    let reader = reader_for(l_shape());
    let first = reader.cast_rays_around_center_of_mass().unwrap();
    let second = reader.cast_rays_around_center_of_mass().unwrap();
    assert!(same(&first, &second));
    let again = reader_for(l_shape()).cast_rays_around_center_of_mass().unwrap();
    assert!(same(&first, &again));
    let third = reader.cast_rays_from_all_segments();
    let fourth = reader.cast_rays_from_all_segments();
    assert!(same(&third, &fourth));
}

#[test]
fn quarter_turn_keeps_the_widths() {
    let upright = reader_for(l_shape()).cast_rays_around_center_of_mass().unwrap();
    for turns in 1..4 {
        let turned = l_shape()
            .into_iter()
            .map(|segment| match segment {
                Segment::Line(a, b) => {
                    let turn = |p: Point| {
                        let mut q = p;
                        for _ in 0..turns {
                            q = Point { x: -q.y, y: q.x };
                        }
                        q
                    };
                    Segment::Line(turn(a), turn(b))
                }
                other => other,
            })
            .collect::<Vec<_>>();
        let found = reader_for(turned).cast_rays_around_center_of_mass().unwrap();
        assert!((units(found.min_width) - units(upright.min_width)).abs() <= 0.5);
        assert!((units(found.max_width) - units(upright.max_width)).abs() <= 0.5);
    }
}

#[test]
fn shape_without_segments_is_degenerate() {
    let found = reader_for(Vec::new()).cast_rays_around_center_of_mass();
    assert!(matches!(found, Err(MeasureError::DegenerateShape)));
}

#[test]
fn shape_without_area_is_degenerate() {
    let found = reader_for(outline(&[(0, 0), (50, 0)])).cast_rays_around_center_of_mass();
    assert!(matches!(found, Err(MeasureError::DegenerateShape)));
}

#[test]
fn box_of_a_polygon_is_the_box_of_its_corners() {
    let reader = reader_for(outline(&[(3, -7), (40, 5), (12, 60), (-9, 8)]));
    let bbox = reader.bbox();
    assert_eq!(reader.max_dim(), 67 * 64);
    assert_eq!(reader.margin(), 129);
    assert_eq!(
        (bbox.min_x, bbox.min_y, bbox.max_x, bbox.max_y),
        (-9 * 64 - 129, -7 * 64 - 129, 40 * 64 + 129, 60 * 64 + 129)
    );
}

#[test]
fn shape_with_two_inked_samples_is_degenerate() {
    let sliver = vec![
        Segment::Line(Point { x: 0, y: 0 }, Point { x: 2, y: 0 }),
        Segment::Line(Point { x: 2, y: 0 }, Point { x: 2, y: 1 }),
        Segment::Line(Point { x: 2, y: 1 }, Point { x: 0, y: 1 }),
        Segment::Line(Point { x: 0, y: 1 }, Point { x: 0, y: 0 }),
    ];
    assert!(Shape::accepts(&sliver));
    let found = WidthReader::new(sliver, 1).unwrap().cast_rays_around_center_of_mass();
    assert!(matches!(found, Err(MeasureError::DegenerateShape)));
}

#[test]
fn frame_round_a_small_hole_looks_inverted() {
    let mut segments = outline(&[(0, 0), (100, 0), (100, 100), (0, 100)]);
    segments.extend(outline(&[(40, 40), (40, 60), (60, 60), (60, 40)]));
    let found = reader_for(segments).cast_rays_around_center_of_mass().unwrap();
    assert!(found.inverted_fill_suspected);
    assert!((units(found.min_width) - 40.0).abs() <= 1.0);
}

#[test]
fn ring_of_quadratics_is_ten_wide() {
    let ring = |radius: f64, clockwise: bool| {
        let mut points = Vec::new();
        for k in 0..16 {
            let turn = if clockwise { -(k as f64) } else { k as f64 };
            let angle = turn * std::f64::consts::PI / 8.0;
            let r = if k % 2 == 0 { radius } else { radius / (std::f64::consts::PI / 8.0).cos() };
            points.push(Point {
                x: (r * angle.cos() * STEPS as f64).round() as i32,
                y: (r * angle.sin() * STEPS as f64).round() as i32,
            });
        }
        let mut out = Vec::new();
        for k in 0..8 {
            out.push(Segment::Quadratic(points[2 * k], points[2 * k + 1], points[(2 * k + 2) % 16]));
        }
        out
    };
    let mut segments = ring(50.0, false);
    segments.extend(ring(40.0, true));
    let found = reader_for(segments).cast_rays_around_center_of_mass().unwrap();
    assert!((units(found.min_width) - 10.0).abs() <= 1.0);
    assert!((units(found.max_width) - 10.0).abs() <= 1.0);
    assert!(found.ribs.len() > 300);
}

#[test]
fn inverted_fill_is_reported_whatever_the_outcome() {
    let solid = reader_for(outline(&[(0, 0), (100, 0), (100, 100), (0, 100)]));
    assert!(solid.inverted_fill_suspected());
    assert!(matches!(solid.cast_rays_around_center_of_mass(), Err(MeasureError::UnsupportedShape)));
    let thin = reader_for(plus_sign());
    assert!(!thin.inverted_fill_suspected());
    assert!(matches!(thin.cast_rays_around_center_of_mass(), Err(MeasureError::UnsupportedShape)));
    let l = reader_for(l_shape());
    assert!(!l.inverted_fill_suspected());
    assert!(!l.cast_rays_around_center_of_mass().unwrap().inverted_fill_suspected);
    assert!(!reader_for(Vec::new()).inverted_fill_suspected());
}

#[test]
fn small_shape_is_measured_step_by_step() {
    let p = |x: i32, y: i32| Point { x, y };
    let corners = [p(0, 0), p(100, 0), p(100, 20), p(10, 20), p(10, 100), p(0, 100)];
    let segments: Vec<Segment> =
        (0..6).map(|i| Segment::Line(corners[i], corners[(i + 1) % 6])).collect();
    assert!(Shape::accepts(&segments));
    let reader = WidthReader::new(segments, 1).unwrap();
    let found = reader.cast_rays_around_center_of_mass().unwrap();
    let (min, max) = found.extent().unwrap();
    assert!((min - 10).abs() <= 2, "least {min}");
    assert!((max - 20).abs() <= 2, "greatest {max}");
    let all = reader.cast_rays_from_all_segments();
    let (min, max) = all.extent().unwrap();
    assert!((min - 10).abs() <= 2, "least {min}");
    assert!((max - 20).abs() <= 2, "greatest {max}");
}

#[test]
fn rays_are_handed_back_only_on_request() {
    let reader = reader_for(l_shape());
    let with = reader.measure(Strategy::CenterOfMass, true).unwrap();
    let without = reader.measure(Strategy::CenterOfMass, false).unwrap();
    assert_eq!(with.rays.len(), 360);
    assert!(without.rays.is_empty());
    assert_eq!(with.ribs, without.ribs);
    assert_eq!(with.min_width, without.min_width);
    assert_eq!(with.max_width, without.max_width);
    let all = reader.measure(Strategy::AllSegments, true).unwrap();
    assert_eq!(all.rays.len(), 60);
}

#[test]
fn strategy_failure_passes_through_measure() {
    let found = reader_for(plus_sign()).measure(Strategy::CenterOfMass, true);
    assert!(matches!(found, Err(MeasureError::UnsupportedShape)));
}

#[test]
fn cubic_outline_is_refused() {
    let p = |x: i32, y: i32| Point { x, y };
    let segments = vec![
        Segment::Cubic(p(0, 0), p(0, 50), p(100, 50), p(100, 0)),
        Segment::Line(p(100, 0), p(0, 0)),
    ];
    assert!(Shape::accepts(&segments));
    assert!(matches!(WidthReader::new(segments, 1), Err(MeasureError::UnsupportedSegment)));
}

#[test]
fn no_fitted_rib_means_no_measurable_stroke() {
    let mut segments = outline(&[(45, 0), (55, 0), (55, 100), (45, 100)]);
    segments.extend(outline(&[(0, 45), (0, 55), (100, 55), (100, 45)]));
    let found = reader_for(segments).cast_rays_around_center_of_mass().unwrap();
    assert!(found.ribs.is_empty());
    assert_eq!(found.min_width, None);
    assert_eq!(found.max_width, None);
    assert!(matches!(found.extent(), Err(MeasureError::NoMeasurableStroke)));
}

#[test]
fn extent_gives_least_and_greatest_width() {
    let found = reader_for(l_shape()).cast_rays_around_center_of_mass().unwrap();
    assert_eq!(found.extent(), Ok((639, 1278)));
}

#[test]
fn reader_knows_its_box() {
    let reader = reader_for(l_shape());
    let bbox = reader.bbox();
    assert_eq!(reader.max_dim(), 6400);
    assert_eq!((bbox.min_x, bbox.min_y, bbox.max_x, bbox.max_y), (-192, -192, 6592, 6592));
    assert_eq!(reader.unit(), 64);
    assert_eq!(reader.margin(), 192);
    assert_eq!(reader.reach(), 640_000);
    assert_eq!(reader.shape().len(), 6);
    let ray = reader.make_x_ray(Point { x: 10, y: 20 });
    assert_eq!(ray.start, Point { x: 10 - 640_000, y: 20 });
    assert_eq!(ray.end, Point { x: 10 + 640_000, y: 20 });
}
