use stroke_contrast::classifier::{Crossing, Shape};
use stroke_contrast::contour::is_closed;
use stroke_contrast::error::MeasureError;
use stroke_contrast::fixed::{decode_ceil, decode_floor, decode_unit_fraction};
use stroke_contrast::geometry::{Line, Point, Segment, Vector};

fn pt(x: i32, y: i32) -> Point {
    Point { x, y }
}

fn square(side: i32) -> Vec<Segment> {
    vec![
        Segment::Line(pt(0, 0), pt(side, 0)),
        Segment::Line(pt(side, 0), pt(side, side)),
        Segment::Line(pt(side, side), pt(0, side)),
        Segment::Line(pt(0, side), pt(0, 0)),
    ]
}

fn reversed_square(side: i32) -> Vec<Segment> {
    vec![
        Segment::Line(pt(0, 0), pt(0, side)),
        Segment::Line(pt(0, side), pt(side, side)),
        Segment::Line(pt(side, side), pt(side, 0)),
        Segment::Line(pt(side, 0), pt(0, 0)),
    ]
}

#[test]
fn winding_is_nonzero_inside_and_zero_outside() {
    let shape = Shape::new(square(100)).unwrap();
    assert_ne!(shape.winding(pt(50, 50)), 0);
    assert_eq!(shape.winding(pt(150, 50)), 0);
    assert_eq!(shape.winding(pt(-1, 50)), 0);
    assert_eq!(shape.winding(pt(50, 101)), 0);
    assert!(shape.is_filled(pt(1, 1)));
    assert!(!shape.is_filled(pt(-1, -1)));
}

#[test]
fn winding_changes_sign_with_direction() {
    let one = Shape::new(square(100)).unwrap().winding(pt(50, 50));
    let other = Shape::new(reversed_square(100)).unwrap().winding(pt(50, 50));
    assert_eq!(one.abs(), 1);
    assert_eq!(one, -other);
}

#[test]
fn winding_adds_up_over_contours() {
    let mut twice = square(100);
    twice.extend(square(100));
    let shape = Shape::new(twice).unwrap();
    assert_eq!(shape.winding(pt(50, 50)).abs(), 2);
    let mut cancelled = square(100);
    cancelled.extend(reversed_square(100));
    let hollow = Shape::new(cancelled).unwrap();
    assert_eq!(hollow.winding(pt(50, 50)), 0);
    assert!(!hollow.is_filled(pt(50, 50)));
}

#[test]
fn winding_does_not_depend_on_the_direction_of_the_test_ray() {
    let corners = [(0, 0), (100, 0), (100, 20), (10, 20), (10, 100), (0, 100)];
    let turn = |p: Point, turns: usize| {
        let mut q = p;
        for _ in 0..turns {
            q = pt(-q.y, q.x);
        }
        q
    };
    let probes = [pt(5, 50), pt(50, 10), pt(50, 50), pt(-5, 5), pt(5, 5), pt(99, 19), pt(11, 21)];
    let upright: Vec<i64> = {
        let segments = (0..6).map(|i| Segment::Line(
            pt(corners[i].0, corners[i].1),
            pt(corners[(i + 1) % 6].0, corners[(i + 1) % 6].1),
        ));
        let shape = Shape::new(segments.collect()).unwrap();
        probes.iter().map(|p| shape.winding(*p)).collect()
    };
    assert_eq!(upright.iter().filter(|w| **w != 0).count(), 4);
    for turns in 1..4 {
        let segments = (0..6).map(|i| Segment::Line(
            turn(pt(corners[i].0, corners[i].1), turns),
            turn(pt(corners[(i + 1) % 6].0, corners[(i + 1) % 6].1), turns),
        ));
        let shape = Shape::new(segments.collect()).unwrap();
        let turned: Vec<i64> = probes.iter().map(|p| shape.winding(turn(*p, turns))).collect();
        assert_eq!(turned, upright);
    }
}

#[test]
fn winding_of_a_polygon_follows_the_crossing_rule() {
    let side = |a: Point, b: Point, p: Point| {
        (b.y as i64 - a.y as i64) * (p.x as i64 - a.x as i64)
            - (b.x as i64 - a.x as i64) * (p.y as i64 - a.y as i64)
    };
    let rule = |a: Point, b: Point, p: Point| -> i64 {
        if a.y < b.y && a.y <= p.y && p.y < b.y && side(a, b, p) >= 0 {
            -1
        } else if b.y < a.y && b.y <= p.y && p.y < a.y && side(a, b, p) <= 0 {
            1
        } else {
            0
        }
    };
    let mut seed: u64 = 0x2545_f491_4f6c_dd1d;
    let mut next = |range: i64| -> i32 {
        seed ^= seed << 13;
        seed ^= seed >> 7;
        seed ^= seed << 17;
        ((seed % (2 * range as u64 + 1)) as i64 - range) as i32
    };
    for round in 0..400 {
        let range = match round % 4 {
            0 => 5,
            1 => 300,
            2 => 70_000,
            _ => 0x10_0000,
        };
        let a = pt(next(range), next(range));
        let b = pt(next(range), next(range));
        let c = pt(next(range), next(range));
        let shape = Shape::new(vec![
            Segment::Line(a, b),
            Segment::Line(b, c),
            Segment::Line(c, a),
        ])
        .unwrap();
        let mut probes = vec![a, b, c, pt(a.x, b.y), pt((a.x + b.x) / 2, (a.y + b.y) / 2)];
        for _ in 0..40 {
            probes.push(pt(next(range + 2), next(range + 2)));
        }
        probes.push(pt(i32::MAX, a.y));
        probes.push(pt(i32::MIN, b.y));
        probes.push(pt(c.x, i32::MAX));
        for p in probes {
            let expected = rule(a, b, p) + rule(b, c, p) + rule(c, a, p);
            assert_eq!(shape.winding(p), expected, "{a:?} {b:?} {c:?} around {p:?}");
        }
    }
}

#[test]
fn winding_counts_quadratics() {
    let lens = vec![
        Segment::Quadratic(pt(0, 0), pt(50, 100), pt(100, 0)),
        Segment::Line(pt(100, 0), pt(0, 0)),
    ];
    let shape = Shape::new(lens).unwrap();
    assert!(shape.is_filled(pt(50, 25)));
    assert!(!shape.is_filled(pt(50, 75)));
    assert!(!shape.is_filled(pt(5, 40)));
}

#[test]
fn probe_crosses_a_line_at_its_middle() {
    let shape = Shape::new(square(100)).unwrap();
    let probe = Line { start: pt(50, -100), end: pt(50, 100) };
    let found = shape.intersect(&probe, 0);
    assert_eq!(found, vec![Crossing { line_t: 500_000_000, segment_t: 500_000_000, segment: 0 }]);
    assert!(shape.intersect(&probe, 1).is_empty());
}

#[test]
fn crossings_come_in_the_order_of_the_segments() {
    let shape = Shape::new(square(100)).unwrap();
    let probe = Line { start: pt(-100, 25), end: pt(300, 25) };
    let found = shape.crossings(&probe);
    assert_eq!(
        found,
        vec![
            Crossing { line_t: 500_000_000, segment_t: 250_000_000, segment: 1 },
            Crossing { line_t: 250_000_000, segment_t: 750_000_000, segment: 3 },
        ]
    );
}

#[test]
fn probe_crosses_a_quadratic_twice() {
    let lens = vec![
        Segment::Quadratic(pt(0, 0), pt(50, 100), pt(100, 0)),
        Segment::Line(pt(100, 0), pt(0, 0)),
    ];
    let shape = Shape::new(lens).unwrap();
    let probe = Line { start: pt(-100, 32), end: pt(200, 32) };
    let found = shape.intersect(&probe, 0);
    assert_eq!(found.len(), 2);
    assert_eq!(found[0].segment_t, 200_000_000);
    assert_eq!(found[1].segment_t, 800_000_000);
    assert_eq!(found[0].line_t, 400_000_000);
    assert_eq!(found[1].line_t, 600_000_000);
    assert_eq!(found[0].segment, 0);
}

#[test]
fn parallel_probe_crosses_nothing() {
    let shape = Shape::new(square(100)).unwrap();
    let probe = Line { start: pt(-100, 0), end: pt(300, 0) };
    assert!(shape.intersect(&probe, 0).is_empty());
}

#[test]
fn fractions_decode_from_bit_patterns() {
    assert_eq!(decode_unit_fraction(0.5f64.to_bits()), 500_000_000);
    assert_eq!(decode_unit_fraction(0.25f64.to_bits()), 250_000_000);
    assert_eq!(decode_unit_fraction(0.0f64.to_bits()), 0);
    assert_eq!(decode_unit_fraction((-0.0f64).to_bits()), 0);
    assert_eq!(decode_unit_fraction(1.0f64.to_bits()), 1_000_000_000);
    assert_eq!(decode_unit_fraction(0.001f64.to_bits()), 1_000_000);
    assert_eq!(decode_unit_fraction(0.1f64.to_bits()), 100_000_000);
    assert_eq!(decode_unit_fraction(0.3f64.to_bits()), 300_000_000);
    assert_eq!(decode_unit_fraction(0.7f64.to_bits()), 700_000_000);
    assert_eq!(decode_unit_fraction(0.123456789f64.to_bits()), 123_456_789);
    assert_eq!(decode_unit_fraction(0.9999999996f64.to_bits()), 1_000_000_000);
    assert_eq!(decode_unit_fraction(1e-9f64.to_bits()), 1);
    assert_eq!(decode_unit_fraction(0.6e-9f64.to_bits()), 1);
    assert_eq!(decode_unit_fraction(0.4e-9f64.to_bits()), 0);
    assert_eq!(decode_unit_fraction(1e-30f64.to_bits()), 0);
    assert_eq!(decode_unit_fraction(f64::MIN_POSITIVE.to_bits()), 0);
    assert_eq!(decode_unit_fraction(5e-324f64.to_bits()), 0);
}

#[test]
fn fractions_outside_the_unit_interval_are_clamped() {
    assert_eq!(decode_unit_fraction((-0.5f64).to_bits()), 0);
    assert_eq!(decode_unit_fraction((-1e-9f64).to_bits()), 0);
    assert_eq!(decode_unit_fraction(1.000000001f64.to_bits()), 1_000_000_000);
    assert_eq!(decode_unit_fraction(2.5f64.to_bits()), 1_000_000_000);
    assert_eq!(decode_unit_fraction(f64::INFINITY.to_bits()), 1_000_000_000);
    assert_eq!(decode_unit_fraction(f64::NEG_INFINITY.to_bits()), 0);
    assert_eq!(decode_unit_fraction(f64::NAN.to_bits()), 1_000_000_000);
}

#[test]
fn values_are_rounded_down_and_up_from_bit_patterns() {
    let both = |v: f64| (decode_floor(v.to_bits()), decode_ceil(v.to_bits()));
    assert_eq!(both(0.0), (0, 0));
    assert_eq!(both(-0.0), (0, 0));
    assert_eq!(both(2.5), (2, 3));
    assert_eq!(both(-2.5), (-3, -2));
    assert_eq!(both(7.0), (7, 7));
    assert_eq!(both(-7.0), (-7, -7));
    assert_eq!(both(0.25), (0, 1));
    assert_eq!(both(-0.25), (-1, 0));
    assert_eq!(both(5e-324), (0, 1));
    assert_eq!(both(-5e-324), (-1, 0));
    assert_eq!(both(1048576.0), (1048576, 1048576));
    assert_eq!(both(1048575.999), (1048575, 1048576));
    assert_eq!(both(2147483647.5), (2147483647, 2147483648));
    assert_eq!(both(-2147483647.5), (-2147483648, -2147483647));
    assert_eq!(both(2147483648.0), (2147483648, 2147483648));
    assert_eq!(both(1e300), (2147483648, 2147483648));
    assert_eq!(both(-1e300), (-2147483648, -2147483648));
    assert_eq!(both(f64::INFINITY), (2147483648, 2147483648));
    assert_eq!(both(f64::NEG_INFINITY), (-2147483648, -2147483648));
    assert_eq!(both(f64::NAN), (2147483648, 2147483648));
    for k in -2000..2000 {
        let v = k as f64 / 8.0;
        assert_eq!(both(v), (v.floor() as i64, v.ceil() as i64));
    }
}

#[test]
fn tangent_of_a_line_is_its_chord() {
    let line = Segment::Line(pt(10, 20), pt(110, 220));
    assert_eq!(line.tangent(0), Ok((pt(10, 20), Vector { dx: 100, dy: 200 })));
    assert_eq!(line.tangent(500_000_000), Ok((pt(60, 120), Vector { dx: 100, dy: 200 })));
    assert_eq!(line.tangent(1_000_000_000), Ok((pt(110, 220), Vector { dx: 100, dy: 200 })));
}

#[test]
fn tangent_of_a_quadratic_is_its_derivative() {
    let quad = Segment::Quadratic(pt(0, 0), pt(1000, 0), pt(1000, 1000));
    assert_eq!(quad.tangent(0), Ok((pt(0, 0), Vector { dx: 2000, dy: 0 })));
    assert_eq!(quad.tangent(500_000_000), Ok((pt(750, 250), Vector { dx: 1000, dy: 1000 })));
    assert_eq!(quad.tangent(250_000_000), Ok((pt(438, 63), Vector { dx: 1500, dy: 500 })));
    assert_eq!(quad.tangent(1_000_000_000), Ok((pt(1000, 1000), Vector { dx: 0, dy: 2000 })));
}

#[test]
fn quadratic_through_the_middle_of_its_chord_is_a_line() {
    let flat = Segment::Quadratic(pt(0, 0), pt(1, 1), pt(2, 2));
    let line = Segment::Line(pt(0, 0), pt(2, 2));
    assert_eq!(flat.tangent(500_000_000), Ok((pt(1, 1), Vector { dx: 2, dy: 2 })));
    for t in [0, 1, 250_000_000, 333_333_333, 500_000_000, 750_000_001, 1_000_000_000] {
        assert_eq!(flat.tangent(t), line.tangent(t));
    }
    let long = Segment::Quadratic(pt(-700, 90), pt(-100, 20), pt(500, -50));
    let chord = Segment::Line(pt(-700, 90), pt(500, -50));
    for k in 0..=1000 {
        assert_eq!(long.tangent(k * 1_000_000), chord.tangent(k * 1_000_000));
    }
}

#[test]
fn quadratic_point_is_rounded_once() {
    let arch = Segment::Quadratic(pt(0, 0), pt(1, 1), pt(2, 0));
    assert_eq!(arch.tangent(500_000_000), Ok((pt(1, 1), Vector { dx: 2, dy: 0 })));
    assert_eq!(arch.tangent(0), Ok((pt(0, 0), Vector { dx: 2, dy: 2 })));
    assert_eq!(arch.tangent(1_000_000_000), Ok((pt(2, 0), Vector { dx: 2, dy: -2 })));
    let wide = Segment::Quadratic(pt(0, 0), pt(50, 100), pt(100, 0));
    assert_eq!(wide.tangent(500_000_000), Ok((pt(50, 50), Vector { dx: 100, dy: 0 })));
    assert_eq!(wide.tangent(100_000_000), Ok((pt(10, 18), Vector { dx: 100, dy: 160 })));
}

#[test]
fn curve_run_backwards_has_the_same_points_and_opposite_tangents() {
    let there = Segment::Quadratic(pt(0, 0), pt(0, 3), pt(1, -7));
    let back = Segment::Quadratic(pt(1, -7), pt(0, 3), pt(0, 0));
    let line = Segment::Line(pt(-3, 8), pt(10, -1));
    let enil = Segment::Line(pt(10, -1), pt(-3, 8));
    for k in 0..=1000 {
        let t = k * 1_000_000;
        let (p, v) = there.tangent(t).unwrap();
        let (q, w) = back.tangent(1_000_000_000 - t).unwrap();
        assert_eq!(p, q);
        assert_eq!(w, v.reverse());
        let (p, v) = line.tangent(t).unwrap();
        let (q, w) = enil.tangent(1_000_000_000 - t).unwrap();
        assert_eq!(p, q);
        assert_eq!(w, v.reverse());
    }
    let half = Segment::Quadratic(pt(0, 0), pt(0, 0), pt(1, -1));
    assert_eq!(half.tangent(250_000_000).unwrap().1, Vector { dx: 1, dy: -1 });
}

#[test]
fn tangent_of_a_cubic_is_unsupported() {
    let cubic = Segment::Cubic(pt(0, 0), pt(0, 50), pt(100, 50), pt(100, 0));
    assert_eq!(cubic.tangent(0), Err(MeasureError::UnsupportedSegment));
    assert_eq!(cubic.tangent(500_000_000), Err(MeasureError::UnsupportedSegment));
}

#[test]
fn quarter_turn_and_reverse() {
    let v = Vector { dx: 3, dy: 4 };
    assert_eq!(v.turn_90(), Vector { dx: -4, dy: 3 });
    assert_eq!(v.reverse(), Vector { dx: -3, dy: -4 });
    assert_eq!(v.turn_90().turn_90(), v.reverse());
}

#[test]
fn shape_refuses_a_cubic() {
    let segments = vec![
        Segment::Cubic(pt(0, 0), pt(0, 50), pt(100, 50), pt(100, 0)),
        Segment::Line(pt(100, 0), pt(0, 0)),
    ];
    assert!(Shape::accepts(&segments));
    assert!(matches!(Shape::new(segments), Err(MeasureError::UnsupportedSegment)));
}

#[test]
fn outline_must_lie_on_the_lattice() {
    assert!(Shape::accepts(&square(0x10_0000)));
    assert!(!Shape::accepts(&square(0x10_0001)));
    assert!(Shape::accepts(&Vec::new()));
}

#[test]
fn outline_must_be_closed() {
    let mut open = square(100);
    open.pop();
    assert!(!is_closed(&open));
    assert!(!Shape::accepts(&open));
    assert!(is_closed(&square(100)));
    let mut two = square(100);
    two.extend(vec![
        Segment::Line(pt(200, 200), pt(300, 200)),
        Segment::Line(pt(300, 200), pt(300, 300)),
        Segment::Line(pt(300, 300), pt(200, 200)),
    ]);
    assert!(is_closed(&two));
    two.pop();
    assert!(!is_closed(&two));
    let gap = vec![
        Segment::Line(pt(0, 0), pt(10, 0)),
        Segment::Line(pt(20, 0), pt(20, 10)),
        Segment::Line(pt(20, 10), pt(20, 0)),
    ];
    assert!(!is_closed(&gap));
}

#[test]
fn segments_know_their_ends() {
    let quad = Segment::Quadratic(pt(1, 2), pt(3, 4), pt(5, 6));
    assert_eq!(quad.first_point(), pt(1, 2));
    assert_eq!(quad.last_point(), pt(5, 6));
    let cubic = Segment::Cubic(pt(1, 2), pt(3, 4), pt(5, 6), pt(7, 8));
    assert_eq!(cubic.first_point(), pt(1, 2));
    assert_eq!(cubic.last_point(), pt(7, 8));
    let shape = Shape::new(square(10)).unwrap();
    assert_eq!(shape.len(), 4);
    assert_eq!(shape.segment(2), Segment::Line(pt(10, 10), pt(0, 10)));
}
