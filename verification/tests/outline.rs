use stroke_contrast::classifier::Shape;
use stroke_contrast::geometry::{Point, Segment};
use stroke_contrast::locations::{locations_of_interest, normalization_scale, Location, Scale};
use stroke_contrast::pen::PathPen;

fn q(x: i32, y: i32) -> Point {
    Point { x, y }
}

#[test]
fn pen_flips_the_second_axis() {
    let mut pen = PathPen::new();
    pen.move_to(10, 20);
    pen.line_to(30, 40);
    assert_eq!(pen.finish(), vec![Segment::Line(q(10, -20), q(30, -40))]);
}

#[test]
fn pen_draws_closed_contours() {
    let mut pen = PathPen::default();
    assert!(!pen.has_current());
    pen.move_to(0, 0);
    assert!(pen.has_current());
    pen.line_to(100, 0);
    pen.quad_to(150, 50, 100, 100);
    pen.curve_to(80, 120, 20, 120, 0, 100);
    pen.close();
    let segments = pen.finish();
    assert_eq!(
        segments,
        vec![
            Segment::Line(q(0, 0), q(100, 0)),
            Segment::Quadratic(q(100, 0), q(150, -50), q(100, -100)),
            Segment::Cubic(q(100, -100), q(80, -120), q(20, -120), q(0, -100)),
            Segment::Line(q(0, -100), q(0, 0)),
        ]
    );
    assert!(Shape::accepts(&segments));
}

#[test]
fn pen_adds_no_line_to_a_contour_that_is_closed() {
    let mut pen = PathPen::new();
    pen.move_to(0, 0);
    pen.line_to(100, 0);
    pen.line_to(0, 50);
    pen.line_to(0, 0);
    pen.close();
    assert_eq!(pen.finish().len(), 3);
}

#[test]
fn pen_goes_on_from_the_start_after_closing() {
    let mut pen = PathPen::new();
    pen.move_to(5, 5);
    pen.line_to(100, 0);
    pen.close();
    pen.line_to(7, 7);
    assert_eq!(
        pen.finish(),
        vec![
            Segment::Line(q(5, -5), q(100, 0)),
            Segment::Line(q(100, 0), q(5, -5)),
            Segment::Line(q(5, -5), q(7, -7)),
        ]
    );
}

#[test]
fn pen_remembers_a_contour_left_open() {
    let mut pen = PathPen::new();
    assert!(pen.is_tidy());
    pen.move_to(0, 0);
    pen.line_to(100, 0);
    pen.line_to(0, 50);
    pen.close();
    pen.move_to(200, 200);
    assert!(pen.is_tidy());
    pen.line_to(300, 200);
    pen.line_to(300, 300);
    pen.move_to(400, 400);
    assert!(!pen.is_tidy());
    pen.line_to(500, 400);
    pen.close();
    assert!(!pen.is_tidy());
    assert!(!Shape::accepts(&pen.finish()));
}

#[test]
fn pen_that_closes_every_contour_draws_a_shape() {
    let mut pen = PathPen::new();
    for corner in [0, 200, 400] {
        pen.move_to(corner, corner);
        pen.line_to(corner + 100, corner);
        pen.quad_to(corner + 150, corner + 50, corner + 100, corner + 100);
        pen.close();
    }
    pen.move_to(0, 0);
    pen.line_to(-50, 0);
    pen.line_to(0, -50);
    pen.line_to(0, 0);
    assert!(pen.is_tidy());
    let segments = pen.finish();
    assert_eq!(segments.len(), 12);
    assert!(Shape::accepts(&segments));
}

#[test]
fn pen_shifts_by_the_advance() {
    let mut pen = PathPen::new();
    pen.move_to(0, 0);
    pen.line_to(10, 10);
    pen.advance(500, 20);
    pen.move_to(0, 0);
    pen.line_to(10, 10);
    pen.advance(500, 0);
    pen.move_to(1, 1);
    pen.line_to(2, 2);
    assert_eq!(
        pen.finish(),
        vec![
            Segment::Line(q(0, 0), q(10, -10)),
            Segment::Line(q(500, 20), q(510, 10)),
            Segment::Line(q(1001, 19), q(1002, 18)),
        ]
    );
}

#[test]
fn pen_knows_what_it_can_place() {
    let mut pen = PathPen::new();
    assert!(pen.fits(0x10_0000, -0x10_0000));
    assert!(!pen.fits(0x10_0001, 0));
    assert!(!pen.fits(0, 0x10_0001));
    assert!(!pen.fits(i32::MAX, i32::MIN));
    pen.advance(-1, 1);
    assert!(pen.fits(0x10_0001, 0x10_0001));
    assert!(!pen.fits(-0x10_0000, 0));
}

#[test]
fn family_without_a_weight_axis_has_one_location() {
    assert_eq!(locations_of_interest(None), vec![Location { weight: None }]);
}

#[test]
fn weights_are_a_hundred_apart() {
    let w = |v: i32| Location { weight: Some(v) };
    assert_eq!(locations_of_interest(Some((100, 400))), vec![w(100), w(200), w(300), w(400)]);
    assert_eq!(locations_of_interest(Some((250, 499))), vec![w(250), w(350), w(450)]);
    assert_eq!(locations_of_interest(Some((400, 400))), vec![w(400)]);
    assert_eq!(locations_of_interest(Some((400, 399))), Vec::<Location>::new());
    assert_eq!(locations_of_interest(Some((100, 900))).len(), 9);
    assert_eq!(locations_of_interest(Some((i32::MAX - 50, i32::MAX))), vec![w(i32::MAX - 50)]);
}

#[test]
fn widths_are_brought_to_a_thousand_units_per_em() {
    assert_eq!(normalization_scale(1000), Some(Scale { numerator: 1000, denominator: 1000 }));
    assert_eq!(normalization_scale(2048), Some(Scale { numerator: 1000, denominator: 2048 }));
    assert_eq!(normalization_scale(0), None);
    let same = normalization_scale(1000).unwrap();
    assert_eq!(same.apply(638, 64), 997);
    assert_eq!(same.apply(640, 64), 1000);
    let half = normalization_scale(2000).unwrap();
    assert_eq!(half.apply(640, 64), 500);
    assert_eq!(normalization_scale(2048).unwrap().apply(2048, 1), 100_000);
    assert_eq!(same.apply(0, 64), 0);
}
