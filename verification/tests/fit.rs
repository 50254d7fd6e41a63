use stroke_contrast::candidates::{Highlight, WidthCandidates};
use stroke_contrast::classifier::Shape;
use stroke_contrast::error::MeasureError;
use stroke_contrast::extract::Rib;
use stroke_contrast::fit::{fit_rib, ring_is_filled, FittedWidth};
use stroke_contrast::fixed::{ceil_sqrt, div_floor, div_round, div_round_away, div_toward_zero, floor_sqrt};
use stroke_contrast::geometry::{lerp_coord, Line, Point, Segment, Vector};
use stroke_contrast::perpendicular::sweep_segments;
use stroke_contrast::probe::{magnify, probe_offset_of, probe_through_of, radial_ray_of};
use stroke_contrast::trig::{cosine_of, quarter_sine_of, sine_of};

fn p(x: i32, y: i32) -> Point {
    Point { x, y }
}

fn block(x0: i32, y0: i32, x1: i32, y1: i32) -> Shape {
    Shape::new(vec![
        Segment::Line(p(x0, y0), p(x1, y0)),
        Segment::Line(p(x1, y0), p(x1, y1)),
        Segment::Line(p(x1, y1), p(x0, y1)),
        Segment::Line(p(x0, y1), p(x0, y0)),
    ])
    .unwrap()
}

fn across(x0: i32, x1: i32, y: i32) -> Rib {
    Rib { line: Line { start: p(x0, y), end: p(x1, y) }, t0: 0, t1: 1_000_000_000 }
}

#[test]
fn circle_is_fitted_at_the_first_step_that_stays_in_ink() {
    let shape = block(0, 0, 1000, 10_000);
    let rib = across(0, 1000, 5000);
    let fit = fit_rib(&shape, &rib, 10).unwrap();
    assert_eq!(
        fit,
        FittedWidth { rib, centre_doubled: p(1000, 10_000), diameter_squared: 998 * 998, diameter: 998 }
    );
}

#[test]
fn circle_shrinks_until_it_fits() {
    let shape = block(0, 0, 1000, 950);
    let rib = across(0, 1000, 475);
    let fit = fit_rib(&shape, &rib, 10).unwrap();
    assert_eq!(fit.diameter, 938);
    assert_eq!(fit.diameter_squared, 938 * 938);
    assert_eq!(fit.centre_doubled, p(1000, 950));
}

#[test]
fn width_exceeds_two_units() {
    let shape = block(0, 0, 200, 200);
    let slant = Rib { line: Line { start: p(50, 50), end: p(140, 142) }, t0: 0, t1: 1 };
    let fit = fit_rib(&shape, &slant, 64).unwrap();
    assert_eq!(fit.diameter_squared, 90 * 90 + 92 * 92);
    assert_eq!(fit.diameter, 129);
    assert!(fit.diameter > 2 * 64);
    assert_eq!(fit.centre_doubled, p(190, 192));
    assert_eq!(fit_rib(&shape, &slant, 65), None);
    let small = block(0, 0, 20, 20);
    let short = Rib { line: Line { start: p(5, 5), end: p(7, 7) }, t0: 0, t1: 1 };
    let fit = fit_rib(&small, &short, 1).unwrap();
    assert_eq!((fit.diameter_squared, fit.diameter), (8, 3));
    let tiny = Rib { line: Line { start: p(5, 5), end: p(7, 5) }, t0: 0, t1: 1 };
    assert_eq!(fit_rib(&small, &tiny, 1), None);
}

#[test]
fn fit_does_not_depend_on_the_direction_of_the_rib() {
    let small = block(0, 0, 20, 20);
    let odd = Rib { line: Line { start: p(5, 5), end: p(8, 5) }, t0: 0, t1: 1 };
    let back = Rib { line: Line { start: p(8, 5), end: p(5, 5) }, t0: 1, t1: 0 };
    let one = fit_rib(&small, &odd, 1).unwrap();
    let other = fit_rib(&small, &back, 1).unwrap();
    assert_eq!(one.centre_doubled, p(13, 10));
    assert_eq!((one.diameter_squared, one.diameter), (9, 3));
    assert_eq!(other.centre_doubled, one.centre_doubled);
    assert_eq!(other.diameter_squared, one.diameter_squared);
    assert_eq!(other.diameter, one.diameter);
    assert_eq!(other.rib, back);
    let shape = block(0, 0, 1000, 950);
    let mut seed: u64 = 0x9e37_79b9_7f4a_7c15;
    let mut next = |range: u64| -> i32 {
        seed ^= seed << 13;
        seed ^= seed >> 7;
        seed ^= seed << 17;
        (seed % range) as i32
    };
    let mut fitted = 0;
    for _ in 0..300 {
        let a = p(next(1100) - 50, next(1050) - 50);
        let b = p(next(1100) - 50, next(1050) - 50);
        let there = fit_rib(&shape, &Rib { line: Line { start: a, end: b }, t0: 0, t1: 1 }, 10);
        let back = fit_rib(&shape, &Rib { line: Line { start: b, end: a }, t0: 1, t1: 0 }, 10);
        assert_eq!(there.is_some(), back.is_some(), "{a:?} {b:?}");
        if let (Some(f), Some(g)) = (there, back) {
            fitted += 1;
            assert_eq!(f.centre_doubled, g.centre_doubled);
            assert_eq!(f.diameter_squared, g.diameter_squared);
            assert_eq!(f.diameter, g.diameter);
            assert!(f.diameter > 20);
            let length = (b.x as i64 - a.x as i64).pow(2) + (b.y as i64 - a.y as i64).pow(2);
            assert!(f.diameter_squared as i64 <= length);
            assert!(1_000_000 * f.diameter_squared as i64 >= 763_876 * length);
        }
    }
    assert!(fitted > 20);
}

#[test]
fn rib_that_admits_no_circle_is_dropped() {
    let shape = block(0, 0, 1000, 500);
    assert_eq!(fit_rib(&shape, &across(0, 1000, 250), 10), None);
}

#[test]
fn circle_below_one_unit_is_dropped() {
    let shape = block(0, 0, 100, 10_000);
    let rib = across(0, 100, 5000);
    assert_eq!(fit_rib(&shape, &rib, 64), None);
    assert_eq!(fit_rib(&shape, &rib, 50), None);
    assert_eq!(fit_rib(&shape, &rib, 49).map(|f| (f.diameter_squared, f.diameter)), Some((9801, 99)));
    assert_eq!(fit_rib(&shape, &rib, 48).map(|f| f.diameter), Some(99));
}

#[test]
fn ring_is_tested_all_the_way_round() {
    let shape = block(0, 0, 1000, 1000);
    let spoke = |dx: i64, dy: i64| Vector { dx, dy };
    assert!(ring_is_filled(&shape, &p(1000, 1000), &spoke(800, 0)));
    assert!(ring_is_filled(&shape, &p(1000, 1000), &spoke(-800, 0)));
    assert!(!ring_is_filled(&shape, &p(1000, 1000), &spoke(1200, 0)));
    assert!(!ring_is_filled(&shape, &p(1000, 1800), &spoke(400, 0)));
    assert!(!ring_is_filled(&shape, &p(200, 1000), &spoke(0, 400)));
    assert!(ring_is_filled(&shape, &p(1001, 999), &spoke(3, -5)));
}

#[test]
fn widths_are_gathered_with_their_extremes() {
    let shape = Shape::new(
        vec![
            Segment::Line(p(0, 0), p(1000, 0)),
            Segment::Line(p(1000, 0), p(1000, 10_000)),
            Segment::Line(p(1000, 10_000), p(0, 10_000)),
            Segment::Line(p(0, 10_000), p(0, 0)),
            Segment::Line(p(5000, 0), p(7000, 0)),
            Segment::Line(p(7000, 0), p(7000, 10_000)),
            Segment::Line(p(7000, 10_000), p(5000, 10_000)),
            Segment::Line(p(5000, 10_000), p(5000, 0)),
        ],
    )
    .unwrap();
    let rays = vec![Line { start: p(0, 0), end: p(1, 1) }];
    let ribs = vec![across(0, 1000, 5000), across(2000, 3000, 5000), across(5000, 7000, 5000)];
    let found = WidthCandidates::new(&shape, rays.clone(), ribs, 10);
    assert_eq!(found.rays, rays);
    assert_eq!(found.ribs.len(), 2);
    assert_eq!(found.ribs[0].diameter, 998);
    assert_eq!(found.ribs[1].diameter, 1996);
    assert_eq!(found.min_width, Some(998));
    assert_eq!(found.max_width, Some(1996));
    assert_eq!(found.extent(), Ok((998, 1996)));
    assert!(!found.inverted_fill_suspected);
}

#[test]
fn no_ribs_give_no_widths() {
    let shape = block(0, 0, 1000, 1000);
    let found = WidthCandidates::new(&shape, Vec::new(), Vec::new(), 10);
    assert!(found.ribs.is_empty());
    assert_eq!(found.min_width, None);
    assert_eq!(found.max_width, None);
    assert_eq!(found.extent(), Err(MeasureError::NoMeasurableStroke));
}

#[test]
fn ribs_are_told_apart_by_width() {
    let found = WidthCandidates {
        rays: Vec::new(),
        ribs: Vec::new(),
        min_width: Some(640),
        max_width: Some(1280),
        inverted_fill_suspected: false,
    };
    assert_eq!(found.highlight(1280, 64), Highlight::Widest);
    assert_eq!(found.highlight(1275, 64), Highlight::Widest);
    assert_eq!(found.highlight(1273, 64), Highlight::Ordinary);
    assert_eq!(found.highlight(646, 64), Highlight::Narrowest);
    assert_eq!(found.highlight(647, 64), Highlight::Ordinary);
    assert_eq!(found.highlight(900, 64), Highlight::Ordinary);
    assert_eq!(found.highlight(1279, 9), Highlight::Ordinary);
    assert_eq!(found.highlight(1279, 10), Highlight::Widest);
    let one = WidthCandidates { min_width: Some(640), max_width: Some(640), ..found };
    assert_eq!(one.highlight(640, 64), Highlight::Widest);
    let none = WidthCandidates { min_width: None, max_width: None, ..one };
    assert_eq!(none.highlight(640, 64), Highlight::Ordinary);
}

#[test]
fn every_segment_sends_ten_probes() {
    let shape = block(0, 0, 1000, 10_000);
    let (rays, ribs) = sweep_segments(&shape, 1_000_000);
    assert_eq!(rays.len(), 40);
    assert_eq!(rays[0], Line { start: p(0, -1_000_000), end: p(0, 1_000_000) });
    assert_eq!(rays[1], Line { start: p(100, -1_000_000), end: p(100, 1_000_000) });
    assert_eq!(rays[10], Line { start: p(1_001_000, 0), end: p(-999_000, 0) });
    assert!(ribs.iter().all(|r| r.t0 < r.t1));
    assert!(!ribs.is_empty());
}

#[test]
fn sines_of_whole_degrees() {
    assert_eq!(quarter_sine_of(0), 0);
    assert_eq!(quarter_sine_of(30), 500_000_000);
    assert_eq!(quarter_sine_of(45), 707_106_781);
    assert_eq!(quarter_sine_of(90), 1_000_000_000);
    assert_eq!(sine_of(150), 500_000_000);
    assert_eq!(sine_of(210), -500_000_000);
    assert_eq!(sine_of(330), -500_000_000);
    assert_eq!(sine_of(270), -1_000_000_000);
    assert_eq!(cosine_of(0), 1_000_000_000);
    assert_eq!(cosine_of(60), 500_000_000);
    assert_eq!(cosine_of(120), -500_000_000);
    assert_eq!(cosine_of(180), -1_000_000_000);
    assert_eq!(cosine_of(240), -500_000_000);
    assert_eq!(cosine_of(300), 500_000_000);
    assert_eq!(cosine_of(90), 0);
    assert_eq!(cosine_of(270), 0);
    for d in 0..360u32 {
        let s = sine_of(d) as f64 / 1e9;
        let c = cosine_of(d) as f64 / 1e9;
        assert!((s - (d as f64).to_radians().sin()).abs() < 1e-9);
        assert!((c - (d as f64).to_radians().cos()).abs() < 1e-9);
    }
}

#[test]
fn vectors_turn_by_whole_degrees() {
    let v = Vector { dx: 1000, dy: 0 };
    assert_eq!(v.rotate(0), v);
    assert_eq!(v.rotate(90), Vector { dx: 0, dy: 1000 });
    assert_eq!(v.rotate(180), Vector { dx: -1000, dy: 0 });
    assert_eq!(v.rotate(270), Vector { dx: 0, dy: -1000 });
    assert_eq!(v.rotate(30), Vector { dx: 866, dy: 500 });
    assert_eq!(Vector { dx: 0, dy: 1000 }.rotate(45), Vector { dx: -707, dy: 707 });
    assert_eq!(Vector { dx: 1, dy: 0 }.rotate(60), Vector { dx: 1, dy: 1 });
    assert_eq!(Vector { dx: -1, dy: 0 }.rotate(60), Vector { dx: -1, dy: -1 });
    assert_eq!(Vector { dx: 1, dy: 0 }.rotate(240), Vector { dx: -1, dy: -1 });
    for degrees in 0..180 {
        let v = Vector { dx: 12_345, dy: -678 };
        assert_eq!(v.rotate(degrees + 180), v.rotate(degrees).reverse());
        assert_eq!(v.reverse().rotate(degrees), v.rotate(degrees).reverse());
    }
}

#[test]
fn rays_leave_the_centre_at_whole_degrees() {
    let c = p(100, 200);
    assert_eq!(radial_ray_of(&c, 1000, 0), Line { start: c, end: p(1100, 200) });
    assert_eq!(radial_ray_of(&c, 1000, 90), Line { start: c, end: p(100, 1200) });
    assert_eq!(radial_ray_of(&c, 1000, 180), Line { start: c, end: p(-900, 200) });
    assert_eq!(radial_ray_of(&c, 1000, 60), Line { start: c, end: p(600, 1066) });
    assert_eq!(radial_ray_of(&c, 0, 60), Line { start: c, end: c });
    for degrees in 0..180 {
        let one = radial_ray_of(&c, 12_345, degrees).end;
        let other = radial_ray_of(&c, 12_345, degrees + 180).end;
        assert_eq!((one.x - c.x, one.y - c.y), (c.x - other.x, c.y - other.y));
    }
    let there = probe_through_of(&c, &Vector { dx: 7, dy: -3 }, 1000);
    let back = probe_through_of(&c, &Vector { dx: -7, dy: 3 }, 1000);
    assert_eq!((there.start, there.end), (back.end, back.start));
}

#[test]
fn probes_run_through_a_point_along_a_direction() {
    let at = p(100, 200);
    let up = Vector { dx: 0, dy: 7 };
    assert_eq!(probe_through_of(&at, &up, 1000), Line { start: p(100, -800), end: p(100, 1200) });
    let slant = Vector { dx: 3, dy: 4 };
    assert_eq!(probe_offset_of(&slant, 1000), Vector { dx: 600, dy: 800 });
    assert_eq!(probe_through_of(&at, &slant, 1000), Line { start: p(-500, -600), end: p(700, 1000) });
    let none = Vector { dx: 0, dy: 0 };
    assert_eq!(probe_through_of(&at, &none, 1000), Line { start: p(-900, 200), end: p(1100, 200) });
    let even = Vector { dx: 1, dy: 1 };
    assert_eq!(probe_offset_of(&even, 200), Vector { dx: 141, dy: 141 });
    assert_eq!(probe_offset_of(&even, 200_000), Vector { dx: 141_421, dy: 141_421 });
    assert_eq!(probe_offset_of(&even, 200_000_000), Vector { dx: 141_421_356, dy: 141_421_356 });
    assert_eq!(probe_offset_of(&Vector { dx: -2, dy: 1 }, 1_000_000), Vector { dx: -894_427, dy: 447_214 });
    assert_eq!(probe_offset_of(&Vector { dx: 0, dy: -9 }, 777), Vector { dx: 0, dy: -777 });
    assert_eq!(magnify(&even), Vector { dx: 0x2000_0000, dy: 0x2000_0000 });
    assert_eq!(magnify(&Vector { dx: 3, dy: -5 }), Vector { dx: 3 << 27, dy: -(5 << 27) });
    assert_eq!(magnify(&none), none);
    let far = p(0x20_0000, -0x20_0000);
    assert_eq!(
        probe_through_of(&far, &none, 1000),
        Line { start: p(0x20_0000 - 1000, -0x20_0000), end: p(0x20_0000 + 1000, -0x20_0000) }
    );
    let probe = probe_through_of(&at, &Vector { dx: -5, dy: 2 }, 1000);
    assert_eq!(probe.eval(500_000_000), at);
    assert_eq!(probe.midpoint(), at);
}

#[test]
fn lines_are_interpolated_on_the_lattice() {
    let line = Line { start: p(0, 0), end: p(1000, -500) };
    assert_eq!(line.eval(0), p(0, 0));
    assert_eq!(line.eval(1_000_000_000), p(1000, -500));
    assert_eq!(line.eval(250_000_000), p(250, -125));
    assert_eq!(line.eval(1_000_000), p(1, 0));
    assert_eq!(line.eval(-10_000_000), p(-10, 5));
    assert_eq!(line.eval(1_100_000_000), p(1100, -550));
    assert_eq!(line.midpoint(), p(500, -250));
    assert_eq!(lerp_coord(0, 3, 500_000_000), 2);
    assert_eq!(lerp_coord(0, -3, 500_000_000), -1);
    assert_eq!(p(0, 0).distance_squared(&p(3, 4)), 25);
}

#[test]
fn integer_helpers() {
    assert_eq!(div_floor(7, 2), 3);
    assert_eq!(div_floor(-7, 2), -4);
    assert_eq!(div_floor(-8, 2), -4);
    assert_eq!(div_floor(0, 5), 0);
    assert_eq!(div_round(7, 2), 4);
    assert_eq!(div_round(-7, 2), -3);
    assert_eq!(div_round(-9, 4), -2);
    assert_eq!(div_round(9, 4), 2);
    assert_eq!(floor_sqrt(0), 0);
    assert_eq!(floor_sqrt(24), 4);
    assert_eq!(floor_sqrt(25), 5);
    assert_eq!(floor_sqrt(26), 5);
    assert_eq!(floor_sqrt(0x3fff_ffff_ffff_ffff), 0x7fff_ffff);
    assert_eq!(ceil_sqrt(0), 0);
    assert_eq!(ceil_sqrt(1), 1);
    assert_eq!(ceil_sqrt(24), 5);
    assert_eq!(ceil_sqrt(25), 5);
    assert_eq!(ceil_sqrt(26), 6);
    assert_eq!(ceil_sqrt(0x3fff_ffff_ffff_ffff), 0x8000_0000);
    assert_eq!(div_round_away(7, 2), 4);
    assert_eq!(div_round_away(-7, 2), -4);
    assert_eq!(div_round_away(-9, 4), -2);
    assert_eq!(div_round_away(0, 4), 0);
    assert_eq!(div_toward_zero(7, 2), 3);
    assert_eq!(div_toward_zero(-7, 2), -3);
    assert_eq!(div_toward_zero(-8, 2), -4);
}
