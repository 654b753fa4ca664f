use dynamic_curves::{distance, weighted_average, Curve, IrregularDynamicCurve, RegularDynamicCurve, Tup};
use fixed::types::{U1F15, U1F7};

const SCALE: f64 = 4294967296.0;

fn fx(v: f64) -> i64 {
    (v * SCALE).round() as i64
}

fn fl(r: i64) -> f64 {
    r as f64 / SCALE
}

fn area(r: i128) -> f64 {
    r as f64 / (SCALE * SCALE)
}

fn pt(x: f64, y: f64) -> Tup {
    Tup { x: fx(x), y: fx(y) }
}

fn assert_close(a: f64, b: f64, eps: f64) {
    assert!((a - b).abs() <= eps, "{} is not within {} of {}", a, eps, b);
}

/// A small deterministic stand-in for a random number in [0, 1).
struct Noise(u64);

impl Noise {
    fn next(&mut self) -> f64 {
        self.0 ^= self.0 << 13;
        self.0 ^= self.0 >> 7;
        self.0 ^= self.0 << 17;
        (self.0 >> 11) as f64 / (1u64 << 53) as f64
    }
}

#[test]
fn test_irregular() {
    let epsilon = 0.0001;

    let points = vec![
        pt(12.0, 0.0),
        pt(14.0, 0.4),
        pt(16.0, 0.4), // this point is redundant
        pt(20.0, 0.4),
        pt(30.0, 0.7),
        pt(13.0, 0.0), // out of order in the list, in order by x and y
        pt(40.0, 1.0),
    ];
    let mut c = IrregularDynamicCurve::new(points);

    assert_eq!(fl(c.min_x()), 12.0);
    assert_eq!(fl(c.max_x()), 40.0);

    assert_eq!(fl(c.y_at_x(fx(0.0))), 0.0);
    assert_eq!(fl(c.y_at_x(fx(100.0))), 1.0);

    assert_close(fl(c.y_at_x(fx(12.0))), 0.0, epsilon);
    assert_close(fl(c.y_at_x(fx(13.0))), 0.0, epsilon);
    assert_close(fl(c.y_at_x(fx(14.0))), 0.4, epsilon);
    assert_close(fl(c.y_at_x(fx(40.0))), 1.0, epsilon);

    assert_close(fl(c.y_at_x(fx(25.0))), 0.55, epsilon);
    assert_close(fl(c.y_at_x(fx(35.0))), 0.85, epsilon);

    assert_close(fl(c.y_at_x(fx(13.5))), 0.2, epsilon);
    assert_close(fl(c.y_at_x(fx(15.5))), 0.4, epsilon);

    assert_close(fl(c.x_at_y(fx(0.0))), 12.0, epsilon);
    assert_close(fl(c.x_at_y(fx(1.0))), 40.0, epsilon);
    assert!(fl(c.x_at_y(fx(0.4))) >= 14.0);
    assert!(fl(c.x_at_y(fx(0.4))) <= 20.0);
    assert_close(fl(c.x_at_y(fx(0.7))), 30.0, epsilon);

    assert_close(fl(c.x_at_y(fx(0.2))), 13.5, epsilon);

    c.add_point(fx(35.0), fx(0.9));
    assert_close(fl(c.y_at_x(fx(35.0))), 0.9, epsilon);
    assert_close(fl(c.y_at_x(fx(32.5))), 0.8, epsilon);

    assert_eq!(c.len(), 8);

    c.simplify(0);
    assert_eq!(c.len(), 7); // only the redundant point goes

    c.simplify(fx(0.1));
    assert!(c.len() < 7); // at least one more point goes
}

#[test]
fn test_many_points() {
    let mut c = IrregularDynamicCurve::new(vec![pt(0.0, 0.0), pt(100.0, 1.0)]);
    let mut noise = Noise(0x2545f4914f6cdd1d);

    let mut y = 0.0;
    for i in 1..23 {
        y += noise.next() * 0.018 + (f64::sin(i as f64 / 5.0) + 1.0) / 100.0;
        c.add_point(fx(i as f64), fx(y));
    }
    assert_eq!(c.len(), 24);

    c.simplify(fx(0.01));
    let once = c.len();
    assert!(once < 24);

    c.simplify(fx(0.01));
    c.simplify(fx(0.01));
    c.simplify(fx(0.01));
    assert!(c.len() <= once);
    assert_eq!(fl(c.min_x()), 0.0);
    assert_eq!(fl(c.max_x()), 100.0);
}

#[test]
fn test_fixed_simplification() {
    let mut c = IrregularDynamicCurve::new(vec![pt(0.0, 0.0), pt(200.0, 1.0)]);
    let mut noise = Noise(0x9e3779b97f4a7c15);

    let mut y = 0.0;
    let mut x = 1.0;
    while y < 0.95 {
        y += noise.next() * 0.005 + (f64::sin(x / 5.0) + 1.0) / 220.0;
        c.add_point(fx(x), fx(y));
        x += 1.0;
    }

    let ser = c.serialize_compact_limited(120);
    assert!(ser.len() <= 120);
    assert_eq!(ser[9] as usize, 55);

    let deser = IrregularDynamicCurve::deserialize_compact(ser);
    assert!(deser.len() <= 55);
    assert_eq!(fl(deser.min_x()), 0.0);
    assert_eq!(fl(deser.max_x()), 200.0);
}

fn test_curve(conv_x: fn(f64) -> f64, conv_y: fn(f64) -> f64, test_float_x: bool, epsilon: f64) {
    let samples: Vec<i64> = vec![0.0, 0.6, 1.0].into_iter().map(|v| fx(conv_y(v))).collect();
    let c = RegularDynamicCurve::new(fx(conv_x(10.0)), fx(conv_x(10.0)), samples);
    let q = |x: f64| fl(c.y_at_x(fx(conv_x(x))));
    let r = |y: f64| fl(c.x_at_y(fx(conv_y(y))));

    assert_eq!(fl(c.min_x()), 10.0);
    assert_eq!(fl(c.max_x()), 30.0);

    assert_eq!(q(0.0), 0.0);
    assert_eq!(q(100.0), 1.0);

    assert_close(q(10.0), 0.0, epsilon);
    assert_close(q(20.0), 0.6, epsilon);
    assert_close(q(30.0), 1.0, epsilon);

    assert_close(q(15.0), 0.3, epsilon);
    assert_close(q(25.0), 0.8, epsilon);

    if test_float_x {
        assert_close(q(12.5), 0.15, epsilon);
        assert_close(q(17.5), 0.45, epsilon);
    }

    assert_close(r(0.0), 10.0, epsilon);
    assert_close(r(1.0), 30.0, epsilon);
    assert_close(r(0.6), 20.0, epsilon);
    if test_float_x {
        assert_close(r(0.15), 12.5, epsilon);
        assert_close(r(0.45), 17.5, epsilon);
    }
}

fn as_f32(v: f64) -> f64 {
    v as f32 as f64
}

fn as_i8(v: f64) -> f64 {
    v as i8 as f64
}

fn as_u1f7(v: f64) -> f64 {
    U1F7::from_num(v).to_num::<f64>()
}

fn as_u1f15(v: f64) -> f64 {
    U1F15::from_num(v).to_num::<f64>()
}

#[test]
fn test_all() {
    test_curve(as_f32, as_f32, true, 0.000001);
    test_curve(as_i8, as_f32, false, 0.000001);
    test_curve(as_f32, as_u1f7, true, 0.05);
    test_curve(as_f32, as_u1f15, true, 0.0005);
}

#[test]
fn test_distance() {
    let ys1: Vec<i64> = vec![0.0, 0.2, 0.3, 0.3, 0.7, 1.0].into_iter().map(fx).collect();
    let ys2: Vec<i64> = vec![0.0, 0.05, 0.1, 0.4, 0.7, 1.0].into_iter().map(fx).collect();
    let c1 = RegularDynamicCurve::new(fx(10.0), fx(10.0), ys1);
    let c2 = RegularDynamicCurve::new(fx(5.0), fx(12.0), ys2);

    let c3 = weighted_average(vec![&c1, &c2], vec![fx(0.5), fx(0.5)]);

    let eps = 0.000001;
    assert_close(area(distance(&c1, &c1)), 0.0, eps);
    assert_ne!(distance(&c1, &c2), 0);
    assert_close(area(distance(&c1, &c2)), area(distance(&c2, &c1)), eps);

    // c3 lies halfway between c1 and c2
    assert_close(area(distance(&c1, &c3)), area(distance(&c2, &c3)), eps);

    // the detour through c3 is as long as the direct way
    assert_close(area(distance(&c1, &c2)), area(distance(&c1, &c3)) + area(distance(&c2, &c3)), eps);

    assert!(distance(&c1, &c2) > 0);
    assert!(distance(&c2, &c1) > 0);
    assert!(distance(&c1, &c3) > 0);
    assert!(distance(&c3, &c1) > 0);
    assert!(distance(&c3, &c2) > 0);
    assert!(distance(&c2, &c3) > 0);
}

fn rebuild_regular(xs: Vec<i64>, ys: Vec<i64>) -> RegularDynamicCurve {
    RegularDynamicCurve::new(xs[1] - xs[0], xs[0], ys)
}

fn rebuild_irregular(xs: Vec<i64>, ys: Vec<i64>) -> IrregularDynamicCurve {
    IrregularDynamicCurve::new(xs.into_iter().zip(ys).map(|(x, y)| Tup { x, y }).collect())
}

#[test]
fn test_serde_reg() {
    let ys: Vec<i64> = vec![0.0, 0.2, 0.3, 0.3, 0.7, 1.0].into_iter().map(fx).collect();
    let c1 = RegularDynamicCurve::new(fx(10.0), fx(10.0), ys);

    let serialized = serde_json::to_string(&c1.get_values_as_vectors()).unwrap();
    println!("serialized = {}", serialized);

    let (xs, ys): (Vec<i64>, Vec<i64>) = serde_json::from_str(&serialized).unwrap();
    let deserialized = rebuild_regular(xs, ys);
    assert!(distance(&c1, &deserialized) == 0);

    let serialized_bin = rmp_serde::to_vec(&c1.get_values_as_vectors()).unwrap();
    println!("serialized = {:?}", serialized_bin);

    let (xs, ys): (Vec<i64>, Vec<i64>) = rmp_serde::from_slice(&serialized_bin).unwrap();
    let deserialized_bin = rebuild_regular(xs, ys);
    assert!(distance(&c1, &deserialized_bin) == 0);
}

#[test]
fn test_serde_irreg() {
    let c1 = IrregularDynamicCurve::new(vec![pt(0.0, 0.0), pt(100.0, 1.0)]);

    let serialized = serde_json::to_string(&c1.get_values_as_vectors()).unwrap();
    println!("serialized = {}", serialized);

    let (xs, ys): (Vec<i64>, Vec<i64>) = serde_json::from_str(&serialized).unwrap();
    let deserialized = rebuild_irregular(xs, ys);
    assert!(distance(&c1, &deserialized) == 0);

    let serialized_bin = rmp_serde::to_vec(&c1.get_values_as_vectors()).unwrap();
    println!("serialized = {:?}", serialized_bin);

    let (xs, ys): (Vec<i64>, Vec<i64>) = rmp_serde::from_slice(&serialized_bin).unwrap();
    let deserialized_bin = rebuild_irregular(xs, ys);
    assert!(distance(&c1, &deserialized_bin) == 0);
}
