use heater::{Bounds, Vec2};

#[test]
fn vec2_new_and_splat() {
    let v = Vec2::new(3, 7);
    assert_eq!((v.x, v.y), (3, 7));
    let s = Vec2::splat(4);
    assert_eq!((s.x, s.y), (4, 4));
}

#[test]
fn vec2_add_sub_round_trip() {
    let a = Vec2::new(10, 20);
    let b = Vec2::new(3, 5);
    let s = a.add(b);
    assert_eq!((s.x, s.y), (13, 25));
    let back = s.sub(b);
    assert_eq!(back, a);
}

#[test]
fn vec2_add_assign_matches_add() {
    let mut a = Vec2::new(1, 2);
    a.add_assign(Vec2::new(5, 6));
    assert_eq!(a, Vec2::new(1, 2).add(Vec2::new(5, 6)));
}

#[test]
fn bounds_new_and_size() {
    let b = Bounds::new((8, 0), (50, 35));
    assert_eq!(b.min, Vec2::new(8, 0));
    assert_eq!(b.max, Vec2::new(50, 35));
    assert_eq!(b.width(), 42);
    assert_eq!(b.height(), 35);
}

#[test]
fn bounds_contract_shrinks_by_two_deltas() {
    let b = Bounds::new((52, 30), (127, 63));
    let c = b.contract(1);
    assert_eq!(c, Bounds::new((53, 31), (126, 62)));
    assert_eq!(c.width(), b.width() - 2);
    assert_eq!(c.height(), b.height() - 2);
}

#[test]
fn bounds_contains_edges_inclusive() {
    let b = Bounds::new((2, 3), (5, 7));
    assert!(b.contains(&Vec2::new(2, 3)));
    assert!(b.contains(&Vec2::new(5, 7)));
    assert!(b.contains(&Vec2::new(4, 4)));
    assert!(!b.contains(&Vec2::new(1, 4)));
    assert!(!b.contains(&Vec2::new(6, 4)));
    assert!(!b.contains(&Vec2::new(3, 2)));
    assert!(!b.contains(&Vec2::new(3, 8)));
}

#[test]
fn contracted_bounds_lie_inside() {
    let b = Bounds::new((0, 0), (6, 63));
    let c = b.contract(1);
    for x in 0..10 {
        for y in 0..70 {
            let p = Vec2::new(x, y);
            if c.contains(&p) {
                assert!(b.contains(&p));
            }
        }
    }
}
