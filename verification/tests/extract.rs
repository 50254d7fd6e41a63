use stroke_contrast::bounds::{extent_of, margin_for, segment_box_of, Bounds};
use stroke_contrast::centroid::{centre_of_mass, count_samples, MassCentre};
use stroke_contrast::classifier::{Crossing, Shape};
use stroke_contrast::error::MeasureError;
use stroke_contrast::extract::{
    boundary_crossings, inked_segments, merge_close, runs_between, side_step_of, sort_params, Rib,
};
use stroke_contrast::geometry::{Line, Point, Segment};
use stroke_contrast::radial::{away_normal_of, cast_radial_ray, nearest_crossing_of, nearest_rib_of};
use stroke_contrast::geometry::Vector;

fn at(x: i32, y: i32) -> Point {
    Point { x, y }
}

fn bar(x0: i32, y0: i32, x1: i32, y1: i32) -> Vec<Segment> {
    vec![
        Segment::Line(at(x0, y0), at(x1, y0)),
        Segment::Line(at(x1, y0), at(x1, y1)),
        Segment::Line(at(x1, y1), at(x0, y1)),
        Segment::Line(at(x0, y1), at(x0, y0)),
    ]
}

fn rib(probe: &Line, t0: i64, t1: i64) -> Rib {
    Rib { line: Line { start: probe.eval(t0), end: probe.eval(t1) }, t0, t1 }
}

#[test]
fn probe_through_one_bar_finds_one_rib() {
    let shape = Shape::new(bar(100_000, 0, 200_000, 4000)).unwrap();
    let probe = Line { start: at(0, 2000), end: at(1_000_000, 2000) };
    let ribs = inked_segments(&shape, &probe);
    assert_eq!(ribs, vec![rib(&probe, 100_000_000, 200_000_000)]);
    assert_eq!(ribs[0].line, Line { start: at(100_000, 2000), end: at(200_000, 2000) });
}

#[test]
fn probe_through_two_bars_finds_two_ribs() {
    let mut segments = bar(100_000, 0, 200_000, 4000);
    segments.extend(bar(500_000, 0, 700_000, 4000));
    let shape = Shape::new(segments).unwrap();
    let probe = Line { start: at(0, 2000), end: at(1_000_000, 2000) };
    let ribs = inked_segments(&shape, &probe);
    assert_eq!(
        ribs,
        vec![rib(&probe, 100_000_000, 200_000_000), rib(&probe, 500_000_000, 700_000_000)]
    );
}

#[test]
fn probe_that_misses_finds_no_rib() {
    let shape = Shape::new(bar(100_000, 0, 200_000, 4000)).unwrap();
    let probe = Line { start: at(0, 5000), end: at(1_000_000, 5000) };
    assert!(inked_segments(&shape, &probe).is_empty());
}

#[test]
fn crossing_inside_the_ink_is_a_graze() {
    let mut segments = bar(100_000, 0, 300_000, 4000);
    segments.extend(bar(200_000, 0, 400_000, 4000));
    let shape = Shape::new(segments).unwrap();
    let probe = Line { start: at(0, 2000), end: at(1_000_000, 2000) };
    let all = shape.crossings(&probe);
    assert_eq!(all.len(), 4);
    let kept = boundary_crossings(&shape, &probe, &all);
    assert_eq!(kept, vec![100_000_000, 400_000_000]);
    assert_eq!(inked_segments(&shape, &probe), vec![rib(&probe, 100_000_000, 400_000_000)]);
}

#[test]
fn crossings_at_a_corner_are_merged() {
    let shape = Shape::new(bar(100_000, 100_000, 300_000, 300_000)).unwrap();
    let probe = Line { start: at(0, 0), end: at(400_000, 400_000) };
    let all = shape.crossings(&probe);
    assert_eq!(all.len(), 4);
    let ribs = inked_segments(&shape, &probe);
    assert_eq!(ribs, vec![rib(&probe, 250_000_000, 750_000_000)]);
}

#[test]
fn short_probe_samples_a_step_to_either_side() {
    let shape = Shape::new(bar(1000, 0, 2000, 4000)).unwrap();
    let probe = Line { start: at(0, 2000), end: at(10_000, 2000) };
    assert_eq!(side_step_of(&probe), 100_000);
    assert_eq!(probe.eval(100_000_000 - 100_000), at(999, 2000));
    assert_eq!(probe.eval(100_000_000 + 100_000), at(1001, 2000));
    let all = shape.crossings(&probe);
    assert_eq!(boundary_crossings(&shape, &probe, &all), vec![200_000_000, 100_000_000]);
    assert_eq!(inked_segments(&shape, &probe), vec![rib(&probe, 100_000_000, 200_000_000)]);
    let offset = Line { start: at(-9995, 50), end: at(10_005, 50) };
    let edge = Shape::new(bar(0, 0, 2000, 4000)).unwrap();
    let found = inked_segments(&edge, &offset);
    assert_eq!(found.len(), 1);
    assert_eq!(found[0].line, Line { start: at(0, 50), end: at(2000, 50) });
}

#[test]
fn side_step_is_a_hundred_thousandth_or_a_lattice_step() {
    let long = Line { start: at(0, 0), end: at(1_000_000, 5) };
    assert_eq!(side_step_of(&long), 10_000);
    let just = Line { start: at(0, 0), end: at(100_000, 0) };
    assert_eq!(side_step_of(&just), 10_000);
    let shorter = Line { start: at(0, 0), end: at(99_999, 0) };
    assert_eq!(side_step_of(&shorter), 10_001);
    let slant = Line { start: at(10, 10), end: at(-20, 50) };
    assert_eq!(side_step_of(&slant), 25_000_000);
    let unit = Line { start: at(0, 0), end: at(0, 1) };
    assert_eq!(side_step_of(&unit), 1_000_000_000);
    let none = Line { start: at(7, 7), end: at(7, 7) };
    assert_eq!(side_step_of(&none), 10_000);
}

#[test]
fn parameters_are_sorted() {
    assert_eq!(sort_params(&vec![3, 1, 2]), vec![1, 2, 3]);
    assert_eq!(sort_params(&vec![5, 5, 1, 9, 0]), vec![0, 1, 5, 5, 9]);
    assert_eq!(sort_params(&Vec::new()), Vec::<i64>::new());
    assert_eq!(sort_params(&vec![7]), vec![7]);
}

#[test]
fn close_parameters_are_merged() {
    assert_eq!(merge_close(&vec![0, 999, 1_999, 5_000]), vec![0, 1_999, 5_000]);
    assert_eq!(merge_close(&vec![0, 999, 1_998, 2_997]), vec![0]);
    assert_eq!(merge_close(&vec![0, 1_000]), vec![0, 1_000]);
    assert_eq!(merge_close(&vec![10, 10, 10]), vec![10]);
    assert_eq!(merge_close(&Vec::new()), Vec::<i64>::new());
}

#[test]
fn ribs_need_an_inked_midpoint() {
    let shape = Shape::new(bar(100_000, 0, 200_000, 4000)).unwrap();
    let probe = Line { start: at(0, 2000), end: at(1_000_000, 2000) };
    let stops = vec![0, 100_000_000, 200_000_000, 900_000_000];
    assert_eq!(runs_between(&shape, &probe, &stops), vec![rib(&probe, 100_000_000, 200_000_000)]);
    assert!(runs_between(&shape, &probe, &vec![100_000_000]).is_empty());
}

#[test]
fn earliest_crossing_is_nearest_and_first_wins() {
    let a = Crossing { line_t: 30, segment_t: 1, segment: 0 };
    let b = Crossing { line_t: 10, segment_t: 2, segment: 1 };
    let c = Crossing { line_t: 10, segment_t: 3, segment: 2 };
    assert_eq!(nearest_crossing_of(&vec![a, b, c]), Some(b));
    assert_eq!(nearest_crossing_of(&vec![c, a, b]), Some(c));
    assert_eq!(nearest_crossing_of(&Vec::new()), None);
}

#[test]
fn rib_nearest_the_middle_is_kept_and_first_wins() {
    let probe = Line { start: at(0, 0), end: at(10_000, 0) };
    let left = rib(&probe, 100_000_000, 400_000_000);
    let right = rib(&probe, 600_000_000, 900_000_000);
    let near = rib(&probe, 510_000_000, 520_000_000);
    let over = rib(&probe, 450_000_000, 700_000_000);
    assert_eq!(nearest_rib_of(&vec![left, right]), Some(left));
    assert_eq!(nearest_rib_of(&vec![right, left]), Some(right));
    assert_eq!(nearest_rib_of(&vec![left, near, right]), Some(near));
    assert_eq!(nearest_rib_of(&vec![left, near, over]), Some(over));
    assert_eq!(nearest_rib_of(&Vec::new()), None);
}

#[test]
fn normal_leads_away_from_the_centre() {
    let centre = at(0, 0);
    let tangent = Vector { dx: 0, dy: 10 };
    assert_eq!(away_normal_of(&centre, &at(100, 0), &tangent), Vector { dx: 10, dy: 0 });
    assert_eq!(away_normal_of(&centre, &at(-100, 0), &tangent), Vector { dx: -10, dy: 0 });
    let level = Vector { dx: 10, dy: 0 };
    assert_eq!(away_normal_of(&centre, &at(0, 100), &level), Vector { dx: 0, dy: 10 });
    assert_eq!(away_normal_of(&centre, &at(0, -100), &level), Vector { dx: 0, dy: -10 });
}

#[test]
fn ray_is_followed_to_the_rib_behind_the_boundary() {
    let shape = Shape::new(bar(1000, -2000, 2000, 2000)).unwrap();
    let (ray, found) = cast_radial_ray(&shape, &at(0, 0), 100_000, 0);
    assert_eq!(ray, Line { start: at(0, 0), end: at(1000, 0) });
    let found = found.unwrap();
    assert_eq!(found.line, Line { start: at(1000, 0), end: at(2000, 0) });
    let (miss, nothing) = cast_radial_ray(&shape, &at(0, 0), 100_000, 180);
    assert_eq!(miss, Line { start: at(0, 0), end: at(-100_000, 0) });
    assert_eq!(nothing, None);
}

#[test]
fn box_of_a_shape_is_as_tight_as_its_curves() {
    let lens = vec![
        Segment::Quadratic(at(0, 0), at(50, 100), at(100, 0)),
        Segment::Line(at(100, 0), at(0, 0)),
    ];
    let shape = Shape::new(lens).unwrap();
    assert_eq!(extent_of(&shape), Bounds { min_x: 0, min_y: 0, max_x: 100, max_y: 50 });
    let empty = Shape::new(Vec::new()).unwrap();
    assert_eq!(extent_of(&empty), Bounds { min_x: 0, min_y: 0, max_x: 0, max_y: 0 });
    let far = Shape::new(bar(-700, 20, -300, 90)).unwrap();
    assert_eq!(extent_of(&far), Bounds { min_x: -700, min_y: 20, max_x: -300, max_y: 90 });
}

#[test]
fn box_of_a_segment_is_rounded_outwards() {
    let up = Segment::Quadratic(at(0, 0), at(10, 5), at(20, 0));
    assert_eq!(segment_box_of(&up), Bounds { min_x: 0, min_y: 0, max_x: 20, max_y: 3 });
    let down = Segment::Quadratic(at(0, 0), at(10, -5), at(20, 0));
    assert_eq!(segment_box_of(&down), Bounds { min_x: 0, min_y: -3, max_x: 20, max_y: 0 });
    let left = Segment::Quadratic(at(0, 0), at(-3, 10), at(0, 20));
    assert_eq!(segment_box_of(&left), Bounds { min_x: -2, min_y: 0, max_x: 0, max_y: 20 });
    let line = Segment::Line(at(7, -9), at(-4, 12));
    assert_eq!(segment_box_of(&line), Bounds { min_x: -4, min_y: -9, max_x: 7, max_y: 12 });
    let point = Segment::Line(at(5, 6), at(5, 6));
    assert_eq!(segment_box_of(&point), Bounds { min_x: 5, min_y: 6, max_x: 5, max_y: 6 });
}

#[test]
fn boxes_are_joined() {
    let one = Bounds { min_x: 0, min_y: 0, max_x: 10, max_y: 10 };
    let other = Bounds { min_x: -5, min_y: 3, max_x: 4, max_y: 20 };
    assert_eq!(one.join(&other), Bounds { min_x: -5, min_y: 0, max_x: 10, max_y: 20 });
    assert_eq!(other.join(&one), one.join(&other));
}

#[test]
fn box_is_widened_by_three_hundredths() {
    let raw = Bounds { min_x: 0, min_y: 100, max_x: 1000, max_y: 300 };
    assert_eq!(raw.max_dim(), 1000);
    assert_eq!(raw.inflate(), Bounds { min_x: -30, min_y: 70, max_x: 1030, max_y: 330 });
    let small = Bounds { min_x: 0, min_y: 0, max_x: 33, max_y: 10 };
    assert_eq!(small.inflate(), Bounds { min_x: -1, min_y: -1, max_x: 34, max_y: 11 });
    let next = Bounds { min_x: 0, min_y: 0, max_x: 34, max_y: 10 };
    assert_eq!(next.inflate(), Bounds { min_x: -2, min_y: -2, max_x: 36, max_y: 12 });
    let square = Bounds { min_x: 0, min_y: 0, max_x: 40, max_y: 40 };
    assert_eq!(square.inflate(), Bounds { min_x: -2, min_y: -2, max_x: 42, max_y: 42 });
    let point = Bounds { min_x: 5, min_y: 5, max_x: 5, max_y: 5 };
    assert_eq!(point.inflate(), point);
    assert_eq!(margin_for(0), 0);
    assert_eq!(margin_for(1), 1);
    assert_eq!(margin_for(100), 3);
    assert_eq!(margin_for(101), 4);
}

#[test]
fn centre_of_mass_is_the_mean_of_inked_samples() {
    let mut segments = bar(0, 0, 1000, 100);
    segments.extend(bar(0, 900, 1000, 1000));
    let shape = Shape::new(segments).unwrap();
    let frame = Bounds { min_x: 0, min_y: 0, max_x: 1000, max_y: 1000 };
    let found = centre_of_mass(&shape, &frame).unwrap();
    assert_eq!(found.sampled, 10_000);
    assert_eq!(found.filled, 2_000);
    assert_eq!(found.at, at(495, 495));
    assert!(!found.inverted_fill_suspected());
}

#[test]
fn grid_steps_are_a_hundredth_of_the_side_and_at_least_one() {
    let mut segments = bar(0, 0, 50, 10);
    segments.extend(bar(0, 20, 50, 30));
    let shape = Shape::new(segments).unwrap();
    let small = Bounds { min_x: 0, min_y: 0, max_x: 50, max_y: 30 };
    let found = centre_of_mass(&shape, &small).unwrap();
    assert_eq!(found.sampled, 50 * 30);
    assert_eq!(found.filled, 50 * 20);
    assert_eq!(found.at, at(24, 14));
    let wide = Bounds { min_x: 0, min_y: 0, max_x: 250, max_y: 30 };
    assert_eq!(centre_of_mass(&shape, &wide).unwrap().sampled, 125 * 30);
    let odd = Bounds { min_x: 0, min_y: 0, max_x: 299, max_y: 30 };
    assert_eq!(centre_of_mass(&shape, &odd).unwrap().sampled, 150 * 30);
}

#[test]
fn centre_of_mass_in_ink_is_unsupported() {
    let shape = Shape::new(bar(0, 0, 1000, 1000)).unwrap();
    let frame = Bounds { min_x: -30, min_y: -30, max_x: 1030, max_y: 1030 };
    assert_eq!(centre_of_mass(&shape, &frame), Err(MeasureError::UnsupportedShape));
}

#[test]
fn centre_of_mass_needs_three_inked_samples() {
    let shape = Shape::new(bar(0, 0, 2, 1)).unwrap();
    let frame = Bounds { min_x: 0, min_y: 0, max_x: 2, max_y: 1 };
    assert_eq!(centre_of_mass(&shape, &frame), Err(MeasureError::DegenerateShape));
    let none = Bounds { min_x: 5, min_y: 5, max_x: 5, max_y: 5 };
    assert_eq!(centre_of_mass(&shape, &none), Err(MeasureError::DegenerateShape));
}

#[test]
fn samples_are_counted_whatever_comes_of_them() {
    let shape = Shape::new(bar(0, 0, 1000, 1000)).unwrap();
    let frame = Bounds { min_x: -30, min_y: -30, max_x: 1030, max_y: 1030 };
    let found = count_samples(&shape, &frame);
    assert_eq!(found.sampled, 106 * 106);
    assert_eq!(found.filled, 100 * 100);
    assert!(found.inverted_fill_suspected());
    assert_eq!(found.sum_x, 100 * (0..100).map(|k| 10 * k as i128).sum::<i128>());
    let empty = Shape::new(Vec::new()).unwrap();
    let none = count_samples(&empty, &frame);
    assert_eq!((none.filled, none.sampled), (0, 106 * 106));
    assert!(!none.inverted_fill_suspected());
}

#[test]
fn mostly_inked_samples_suggest_inverted_fill() {
    assert!(MassCentre { at: at(0, 0), filled: 76, sampled: 100 }.inverted_fill_suspected());
    assert!(!MassCentre { at: at(0, 0), filled: 75, sampled: 100 }.inverted_fill_suspected());
    assert!(!MassCentre { at: at(0, 0), filled: 3, sampled: 100 }.inverted_fill_suspected());
}
