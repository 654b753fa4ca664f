use dynamic_curves::{
    distance, weighted_average, weighted_average_checked, Curve, CurveSet, CurveSetError, IrregularDynamicCurve,
    LeafData, RegularDynamicCurve, SerdeFormat, Tup, ONE,
};

const SCALE: f64 = 4294967296.0;

fn fx(v: f64) -> i64 {
    (v * SCALE).round() as i64
}

fn fl(r: i64) -> f64 {
    r as f64 / SCALE
}

fn area(r: i128) -> f64 {
    r as f64 / (SCALE * SCALE)
}

fn pt(x: f64, y: f64) -> Tup {
    Tup { x: fx(x), y: fx(y) }
}

fn assert_close(a: f64, b: f64, eps: f64) {
    assert!((a - b).abs() <= eps, "{} is not within {} of {}", a, eps, b);
}

fn sample_curve() -> IrregularDynamicCurve {
    IrregularDynamicCurve::new(vec![
        pt(12.0, 0.0),
        pt(14.0, 0.4),
        pt(20.0, 0.4),
        pt(30.0, 0.7),
        pt(40.0, 1.0),
    ])
}

#[test]
fn breakpoint_scenario_values() {
    let c = sample_curve();
    assert_close(fl(c.y_at_x(fx(25.0))), 0.55, 1e-6);
    assert_close(fl(c.x_at_y(fx(0.7))), 30.0, 1e-6);
}

#[test]
fn fixed_step_scenario_values() {
    let c = RegularDynamicCurve::new(fx(10.0), fx(10.0), vec![0, fx(0.6), ONE]);
    assert_close(fl(c.y_at_x(fx(15.0))), 0.3, 1e-9);
    assert_eq!(c.x_at_y(fx(0.6)), fx(20.0));
}

#[test]
fn fixed_step_x_at_y_takes_first_of_equal_samples() {
    let c = RegularDynamicCurve::new(fx(1.0), 0, vec![0, fx(0.5), fx(0.5), ONE]);
    assert_eq!(c.x_at_y(fx(0.5)), fx(1.0));
    assert_eq!(c.get_x_values(), vec![0, fx(1.0), fx(2.0), fx(3.0)]);
}

#[test]
fn curve_ends_and_order() {
    let c = sample_curve();
    assert_eq!(c.y_at_x(c.min_x()), 0);
    assert_eq!(c.y_at_x(c.max_x()), ONE);
    let mut last = -1;
    let mut x = 10.0;
    while x <= 42.0 {
        let y = c.y_at_x(fx(x));
        assert!(y >= last);
        last = y;
        x += 0.25;
    }
    let r = RegularDynamicCurve::new(fx(2.0), fx(-3.0), vec![0, fx(0.1), fx(0.1), fx(0.9), ONE]);
    assert_eq!(r.y_at_x(r.min_x()), 0);
    assert_eq!(r.y_at_x(r.max_x()), ONE);
    assert_eq!(fl(r.max_x()), 5.0);
}

#[test]
fn inverse_query_round_trip() {
    let c = sample_curve();
    for x in [12.5, 13.0, 21.0, 29.0, 33.3, 39.0] {
        let back = fl(c.x_at_y(c.y_at_x(fx(x))));
        assert_close(back, x, 1e-6);
    }
}

#[test]
fn construction_sorts_and_snaps() {
    let c = IrregularDynamicCurve::new(vec![pt(5.0, 0.99995), pt(1.0, 0.00005), pt(3.0, 0.5)]);
    let (xs, ys) = c.get_values_as_vectors();
    assert_eq!(xs, vec![fx(1.0), fx(3.0), fx(5.0)]);
    assert_eq!(ys, vec![0, fx(0.5), ONE]);
    assert!(IrregularDynamicCurve::try_new(vec![pt(1.0, 0.0), pt(1.0, 1.0)]).is_none());
    assert!(IrregularDynamicCurve::try_new(vec![pt(1.0, 0.0), pt(2.0, 0.7), pt(3.0, 0.6), pt(4.0, 1.0)]).is_none());
    assert!(IrregularDynamicCurve::try_new(vec![pt(1.0, 0.0)]).is_none());
    assert!(IrregularDynamicCurve::try_new(vec![pt(1.0, 0.0), pt(2.0, 1.0)]).is_some());
}

#[test]
fn indices_of_segments() {
    let c = sample_curve();
    assert_eq!(c.index_at_x(fx(0.0)), 0);
    assert_eq!(c.index_at_x(fx(15.0)), 1);
    assert_eq!(c.index_at_x(fx(20.0)), 2);
    assert_eq!(c.index_at_x(fx(99.0)), 4);
    assert_eq!(c.index_at_y(fx(0.4)), 2);
    assert_eq!(c.index_at_y(fx(0.5)), 2);
    assert_eq!(c.index_at_y(ONE), 4);
}

#[test]
fn distance_laws_on_values() {
    let a = sample_curve();
    let b = RegularDynamicCurve::new(fx(7.0), fx(10.0), vec![0, fx(0.3), fx(0.8), fx(0.9), ONE]);
    assert_eq!(distance(&a, &a), 0);
    assert_eq!(distance(&a, &b), distance(&b, &a));
    assert!(distance(&a, &b) > 0);
}

#[test]
fn distance_exact_triangle() {
    // two straight curves on [0, 2]: their area differs by a triangle of 1 * 1 / 2
    let a = IrregularDynamicCurve::new(vec![pt(0.0, 0.0), pt(1.0, 1.0)]);
    let b = IrregularDynamicCurve::new(vec![pt(0.0, 0.0), pt(2.0, 1.0)]);
    assert_close(area(distance(&a, &b)), 0.5, 1e-9);
}

#[test]
fn distance_with_crossing() {
    // the curves cross at x = 1: two triangles of area 0.25 * 1 / 2 each
    let a = IrregularDynamicCurve::new(vec![pt(0.0, 0.0), pt(1.0, 0.5), pt(2.0, 1.0)]);
    let b = IrregularDynamicCurve::new(vec![pt(0.0, 0.0), pt(0.5, 0.5), pt(1.0, 0.5), pt(1.5, 0.5), pt(2.0, 1.0)]);
    assert_close(area(distance(&a, &b)), 0.25, 1e-9);
}

#[test]
fn midpoint_distances() {
    let a = sample_curve();
    let b = IrregularDynamicCurve::new(vec![pt(10.0, 0.0), pt(18.0, 0.3), pt(26.0, 0.9), pt(44.0, 1.0)]);
    let c = weighted_average(vec![&a, &b], vec![ONE / 2, ONE / 2]);
    assert_close(area(distance(&a, &c)), area(distance(&b, &c)), 1e-6);
    assert_close(area(distance(&a, &c)) + area(distance(&b, &c)), area(distance(&a, &b)), 1e-6);
}

#[test]
fn weighted_average_uses_all_breakpoints() {
    let a = IrregularDynamicCurve::new(vec![pt(0.0, 0.0), pt(10.0, 1.0)]);
    let b = IrregularDynamicCurve::new(vec![pt(0.0, 0.0), pt(4.0, 0.8), pt(10.0, 1.0)]);
    let c = weighted_average(vec![&a, &b], vec![ONE, ONE]);
    let (xs, ys) = c.get_values_as_vectors();
    assert_eq!(xs, vec![0, fx(4.0), fx(10.0)]);
    assert_eq!(ys[0], 0);
    assert_close(fl(ys[1]), 0.6, 1e-9);
    assert_eq!(ys[2], ONE);
    // a breakpoint that falls on a straight line goes
    let d = IrregularDynamicCurve::new(vec![pt(0.0, 0.0), pt(5.0, 0.5), pt(10.0, 1.0)]);
    let e = weighted_average(vec![&a, &d], vec![1, 3]);
    assert_eq!(e.len(), 2);
}

#[test]
fn plain_average() {
    let a = IrregularDynamicCurve::new(vec![pt(0.0, 0.0), pt(10.0, 1.0)]);
    let b = IrregularDynamicCurve::new(vec![pt(0.0, 0.0), pt(2.0, 1.0)]);
    let c = IrregularDynamicCurve::average(&vec![&a, &b]);
    assert_eq!(c.len(), 3);
    assert_close(fl(c.y_at_x(fx(2.0))), 0.6, 1e-9);
}

#[test]
fn checked_average_rejects_a_falling_result() {
    let a = IrregularDynamicCurve::new(vec![pt(0.0, 0.0), pt(1.0, 0.9), pt(2.0, 1.0)]);
    let b = IrregularDynamicCurve::new(vec![pt(0.0, 0.0), pt(1.0, 0.1), pt(2.0, 1.0)]);
    assert!(weighted_average_checked(vec![&a, &b], vec![-ONE, 2 * ONE]).is_none());
    assert!(weighted_average_checked(vec![&a, &b], vec![ONE / 4, 3 * (ONE / 4)]).is_some());
}

#[test]
fn simplify_zero_keeps_values() {
    let c0 = IrregularDynamicCurve::new(vec![
        pt(0.0, 0.0),
        pt(1.0, 0.125),
        pt(2.0, 0.25),
        pt(3.0, 0.5),
        pt(4.0, 0.5),
        pt(5.0, 0.5),
        pt(6.0, 1.0),
    ]);
    let mut c = IrregularDynamicCurve::new(vec![
        pt(0.0, 0.0),
        pt(1.0, 0.125),
        pt(2.0, 0.25),
        pt(3.0, 0.5),
        pt(4.0, 0.5),
        pt(5.0, 0.5),
        pt(6.0, 1.0),
    ]);
    c.simplify(0);
    assert!(c.len() <= c0.len());
    assert_eq!(c.len(), 5);
    for x in c.get_x_values() {
        assert_eq!(c.y_at_x(x), c0.y_at_x(x));
    }
}

#[test]
fn simplify_fixed_counts() {
    let points: Vec<Tup> = (0..20).map(|i| pt(i as f64, (i as f64 / 19.0).powi(2))).collect();
    for k in [2usize, 3, 7, 19, 20, 30] {
        let mut c = IrregularDynamicCurve::new(points.clone());
        c.simplify_fixed(k);
        assert_eq!(c.len(), k.min(20));
        assert_eq!(c.min_x(), 0);
        assert_eq!(c.max_x(), fx(19.0));
    }
}

#[test]
fn simplify_fixed_drops_the_flattest_point_first() {
    let mut c = IrregularDynamicCurve::new(vec![pt(0.0, 0.0), pt(1.0, 0.5), pt(2.0, 0.55), pt(3.0, 0.6), pt(4.0, 1.0)]);
    c.simplify_fixed(4);
    assert_eq!(c.get_x_values(), vec![0, fx(1.0), fx(3.0), fx(4.0)]);
}

#[test]
fn compact_scenario_bytes() {
    let c = IrregularDynamicCurve::new(vec![pt(0.0, 0.0), pt(50.0, 0.5), pt(100.0, 1.0)]);
    let bytes = c.serialize_compact();
    assert_eq!(bytes.len(), 16);
    assert_eq!(bytes[0], 1);
    assert_eq!(&bytes[1..5], &0.0f32.to_le_bytes());
    assert_eq!(&bytes[5..9], &100.0f32.to_le_bytes());
    assert_eq!(bytes[9], 3);
    assert_eq!(&bytes[10..16], &[0, 0, 128, 128, 255, 255]);
    let back = IrregularDynamicCurve::deserialize_compact(bytes);
    assert_close(fl(back.y_at_x(fx(50.0))), 0.5, 1.0 / 255.0);
}

#[test]
fn compact_round_trip() {
    let c = IrregularDynamicCurve::new(vec![
        pt(-3.25, 0.0),
        pt(1.5, 0.12),
        pt(7.0, 0.5),
        pt(20.75, 0.93),
        pt(60.5, 1.0),
    ]);
    let bytes = c.serialize_compact();
    assert_eq!(&bytes[1..5], &(-3.25f32).to_le_bytes());
    assert_eq!(&bytes[5..9], &60.5f32.to_le_bytes());
    let back = IrregularDynamicCurve::deserialize_compact(bytes);
    assert_eq!(back.len(), 5);
    let width = 60.5 + 3.25;
    let (xs, ys) = c.get_values_as_vectors();
    let (bxs, bys) = back.get_values_as_vectors();
    for i in 0..5 {
        assert_close(fl(bxs[i]), fl(xs[i]), width / 255.0);
        assert_close(fl(bys[i]), fl(ys[i]), 1.0 / 255.0);
    }
}

#[test]
fn compact_collapses_repeated_domain_bytes() {
    let mut bytes = vec![1u8];
    bytes.extend_from_slice(&0.0f32.to_le_bytes());
    bytes.extend_from_slice(&10.0f32.to_le_bytes());
    bytes.push(4);
    bytes.extend_from_slice(&[0, 0, 51, 100, 51, 120, 255, 255]);
    let c = IrregularDynamicCurve::deserialize_compact(bytes.clone());
    assert_eq!(c.len(), 3);
    assert_close(fl(c.get_values_as_vectors().1[1]), 100.0 / 255.0, 1e-9);
    assert!(IrregularDynamicCurve::try_deserialize_compact(bytes).is_some());
}

#[test]
fn compact_rejects_bad_bytes() {
    assert!(IrregularDynamicCurve::try_deserialize_compact(vec![1, 0, 0]).is_none());
    let mut bytes = vec![2u8];
    bytes.extend_from_slice(&0.0f32.to_le_bytes());
    bytes.extend_from_slice(&10.0f32.to_le_bytes());
    bytes.push(2);
    bytes.extend_from_slice(&[0, 0, 255, 255]);
    assert!(IrregularDynamicCurve::try_deserialize_compact(bytes.clone()).is_none());
    bytes[0] = 1;
    bytes[9] = 3;
    assert!(IrregularDynamicCurve::try_deserialize_compact(bytes.clone()).is_none());
    bytes[9] = 2;
    assert!(IrregularDynamicCurve::try_deserialize_compact(bytes).is_some());
}

#[test]
fn compact_limited_budget() {
    let points: Vec<Tup> = (0..40).map(|i| pt(i as f64, (i as f64 / 39.0).sqrt())).collect();
    let c = IrregularDynamicCurve::new(points);
    let small = c.serialize_compact_limited(30);
    assert_eq!(small.len(), 30);
    assert_eq!(small[9], 10);
    let whole = c.serialize_compact_limited(1000);
    assert_eq!(whole, c.serialize_compact());
}

fn line(to: f64) -> IrregularDynamicCurve {
    IrregularDynamicCurve::new(vec![pt(0.0, 0.0), pt(to, 1.0)])
}

fn sample_set() -> CurveSet {
    let mut s = CurveSet::new();
    s.add_curve(fx(20.0), line(4.0));
    s.add_curve(fx(10.0), line(2.0));
    s.add_curve(fx(30.0), line(8.0));
    s
}

#[test]
fn curve_set_keeps_keys_in_order() {
    let s = sample_set();
    let keys: Vec<i64> = s.curves().iter().map(|(k, _)| *k).collect();
    assert_eq!(keys, vec![fx(10.0), fx(20.0), fx(30.0)]);
    assert_eq!(s.min_x(), fx(10.0));
    assert_eq!(s.max_x(), fx(30.0));
}

#[test]
fn curve_set_interpolates_between_keys() {
    let s = sample_set();
    let c = s.curve_at_x(fx(15.0)).unwrap();
    // half of a line to 2 and half of a line to 4, at x = 2: 0.5 + 0.25
    assert_close(fl(c.y_at_x(fx(2.0))), 0.75, 1e-9);
    let d = s.curve_at_x_with_continuation(fx(15.0));
    assert_eq!(c.get_values_as_vectors(), d.get_values_as_vectors());
}

#[test]
fn curve_set_errors_outside() {
    let s = sample_set();
    assert_eq!(s.curve_at_x(fx(10.0)).err(), Some(CurveSetError::BelowMinimum));
    assert_eq!(s.curve_at_x(fx(5.0)).err(), Some(CurveSetError::BelowMinimum));
    assert_eq!(s.curve_at_x(fx(30.0)).err(), Some(CurveSetError::AboveMaximum));
    assert_eq!(s.curve_at_x(fx(31.0)).err(), Some(CurveSetError::AboveMaximum));
}

#[test]
fn curve_set_continuation_clamps() {
    let s = sample_set();
    let low = s.curve_at_x_with_continuation(fx(1.0));
    assert_eq!(low.get_values_as_vectors(), line(2.0).get_values_as_vectors());
    let high = s.curve_at_x_with_continuation(fx(99.0));
    assert_eq!(high.get_values_as_vectors(), line(8.0).get_values_as_vectors());
}

#[test]
fn curve_set_extrapolation_documented_not_guaranteed() {
    let s = sample_set();
    // inside, extrapolation agrees with interpolation
    let inside = s.curve_at_x_with_extrapolation(fx(25.0)).unwrap();
    assert_eq!(inside.get_values_as_vectors(), s.curve_at_x(fx(25.0)).unwrap().get_values_as_vectors());
    // a little past the last key: weights 1.5 and -0.5 of the lines to 8 and 4
    let past = s.curve_at_x_with_extrapolation(fx(35.0)).unwrap();
    assert_eq!(past.get_x_values(), vec![0, fx(4.0), fx(8.0)]);
    assert_close(fl(past.y_at_x(fx(4.0))), 0.25, 1e-9);
    // far past it, the blend falls below zero somewhere: no curve
    assert!(s.curve_at_x_with_extrapolation(fx(90.0)).is_none());
}

#[test]
fn file_extensions() {
    assert_eq!(IrregularDynamicCurve::get_ext(&SerdeFormat::Json), "json");
    assert_eq!(IrregularDynamicCurve::get_ext(&SerdeFormat::MessagePack), "icrv");
    assert_eq!(RegularDynamicCurve::get_ext(&SerdeFormat::MessagePack), "rcrv");
}
