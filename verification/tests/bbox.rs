use ecumene::bbox::Bbox;
use ecumene::bbox::LineIter;
use ecumene::bbox::RAD_DEN;
use ecumene::bbox::RAD_NUM;
use ecumene::bbox::line_samples;
use ecumene::geom::Coord;

#[test]
fn empty_works() {
    let mut bb = Bbox::empty();
    assert!(bb.empty, "should be empty");

    bb.add_point(Coord { x: 1, y: 1 });
    assert!(!bb.empty, "should not be empty");

    assert_eq!(bb.min.x, 1);
    assert_eq!(bb.min.y, 1);
    assert_eq!(bb.max.x, 1);
    assert_eq!(bb.max.y, 1);
}

#[test]
fn new_works() {
    let mut bb = Bbox::new(1, 1, 1, 1);
    assert!(!bb.empty, "should not be empty");

    assert_eq!(bb.min.x, 1);
    assert_eq!(bb.min.y, 1);
    assert_eq!(bb.max.x, 1);
    assert_eq!(bb.max.y, 1);

    bb.add_point(Coord { x: -10, y: 2 });
    assert_eq!(bb.min.x, -10);
    assert_eq!(bb.min.y, 1);
    assert_eq!(bb.max.x, 1);
    assert_eq!(bb.max.y, 2);
}

#[test]
fn fold_gives_componentwise_extremes() {
    let pts = [
        Coord { x: 4, y: -1 },
        Coord { x: -7, y: 12 },
        Coord { x: 0, y: 3 },
        Coord { x: 9, y: -6 },
    ];
    let mut bb = Bbox::empty();
    for p in pts.iter() {
        bb.add_point(*p);
    }
    assert!(!bb.is_empty());
    assert_eq!(bb.min.x, -7);
    assert_eq!(bb.min.y, -6);
    assert_eq!(bb.max.x, 9);
    assert_eq!(bb.max.y, 12);
}

#[test]
fn new_is_order_independent() {
    let a = Bbox::new(3, -4, -7, 9);
    let b = Bbox::new(-7, 9, 3, -4);
    assert_eq!(a, b);
    assert_eq!(a.min.x, -7);
    assert_eq!(a.min.y, -4);
    assert_eq!(a.max.x, 3);
    assert_eq!(a.max.y, 9);
}

#[test]
fn to_rad_scales_componentwise() {
    let bb = Bbox::new(180000000, -90000000, 0, 45000000);
    let r = bb.to_rad();
    let expect = |v: i64| -> i64 {
        let m = (v as i128).unsigned_abs();
        let q = (m * RAD_NUM / RAD_DEN) as i64;
        if v < 0 { -q } else { q }
    };
    assert!(!r.empty);
    assert_eq!(r.min.x, expect(0));
    assert_eq!(r.min.y, expect(-90000000));
    assert_eq!(r.max.x, expect(180000000));
    assert_eq!(r.max.y, expect(45000000));
    // 180 degrees in microdegrees comes out as pi in microradians.
    assert_eq!(r.max.x, 3141592);
    assert_eq!(r.min.y, -1570796);
}

#[test]
fn sampler_is_strictly_increasing_and_open() {
    let s = line_samples(0, 10, 3);
    assert_eq!(s, vec![3, 6, 9]);
    for (i, v) in s.iter().enumerate() {
        assert!(0 < *v && *v < 10);
        if i > 0 {
            assert!(s[i - 1] < *v);
        }
    }
}

#[test]
fn sampler_is_empty_when_first_step_reaches_max() {
    assert_eq!(line_samples(0, 3, 3), Vec::<i64>::new());
    assert_eq!(line_samples(5, 4, 1), Vec::<i64>::new());
    assert_eq!(line_samples(0, 10, 0), Vec::<i64>::new());
    assert_eq!(line_samples(0, 10, -2), Vec::<i64>::new());
}

#[test]
fn line_iter_yields_then_stops() {
    let mut it = LineIter::new(0, 10, 3);
    assert_eq!(it.next(), Some(3));
    assert_eq!(it.next(), Some(6));
    assert_eq!(it.next(), Some(9));
    assert_eq!(it.next(), None);
    assert_eq!(it.next(), None);
}

#[test]
fn intersects_requires_overlap_on_both_axes() {
    let a = Bbox::new(-10, -10, 10, 10);
    let b = Bbox::new(5, 5, 20, 20);
    let c = Bbox::new(11, 0, 20, 10);
    assert!(a.intersects(&b));
    assert!(b.intersects(&a));
    assert!(!a.intersects(&c));
    assert!(!a.intersects(&Bbox::empty()));
}
