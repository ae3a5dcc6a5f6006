use labyrinth::direction::Direction;
use labyrinth::vect2_t::{UCoord2, UDelta2};

#[test]
fn test_vect_to_dir() {
    let v: UDelta2 = UDelta2::new(2, -2);
    println!("{:?} -> {}", v, Direction::Right.label());
    assert_eq!(Direction::Right, v.into());
    let v: UDelta2 = UDelta2::new(2, -1);
    println!("{:?} -> {}", v, Direction::Right.label());
    assert_eq!(Direction::Right, v.into());
    let v: UDelta2 = UDelta2::new(2, 1);
    println!("{:?} -> {}", v, Direction::Right.label());
    assert_eq!(Direction::Right, v.into());
    let v: UDelta2 = UDelta2::new(2, 2);
    println!("{:?} -> {}", v, Direction::Down.label());
    assert_eq!(Direction::Down, v.into());
    let v: UDelta2 = UDelta2::new(1, 2);
    println!("{:?} -> {}", v, Direction::Down.label());
    assert_eq!(Direction::Down, v.into());
    let v: UDelta2 = UDelta2::new(-1, 2);
    println!("{:?} -> {}", v, Direction::Down.label());
    assert_eq!(Direction::Down, v.into());
    let v: UDelta2 = UDelta2::new(-2, 2);
    println!("{:?} -> {}", v, Direction::Left.label());
    assert_eq!(Direction::Left, v.into());
    let v: UDelta2 = UDelta2::new(-2, 1);
    println!("{:?} -> {}", v, Direction::Left.label());
    assert_eq!(Direction::Left, v.into());
    let v: UDelta2 = UDelta2::new(-2, -1);
    println!("{:?} -> {}", v, Direction::Left.label());
    assert_eq!(Direction::Left, v.into());
    let v: UDelta2 = UDelta2::new(-2, -2);
    println!("{:?} -> {}", v, Direction::Up.label());
    assert_eq!(Direction::Up, v.into());
    let v: UDelta2 = UDelta2::new(-1, -2);
    println!("{:?} -> {}", v, Direction::Up.label());
    assert_eq!(Direction::Up, v.into());
    let v: UDelta2 = UDelta2::new(1, -2);
    println!("{:?} -> {}", v, Direction::Up.label());
    assert_eq!(Direction::Up, v.into());
}

#[test]
fn labels_and_rotation() {
    assert_eq!(Direction::Right.label(), "RIGHT");
    assert_eq!(Direction::Down.label(), "DOWN");
    assert_eq!(Direction::Left.label(), "LEFT");
    assert_eq!(Direction::Up.label(), "UP");
    assert_eq!(Direction::Right.next(), Direction::Down);
    assert_eq!(Direction::Down.next(), Direction::Left);
    assert_eq!(Direction::Left.next(), Direction::Up);
    assert_eq!(Direction::Up.next(), Direction::Right);
    assert_eq!(Direction::Right.reverse(), Direction::Left);
    assert_eq!(Direction::Up.reverse(), Direction::Down);
}

#[test]
fn deltas_and_neighbours() {
    assert_eq!(Direction::Right.to_delta(), UDelta2::new(1, 0));
    assert_eq!(Direction::Down.to_delta(), UDelta2::new(0, 1));
    assert_eq!(Direction::Left.to_delta(), UDelta2::new(-1, 0));
    assert_eq!(Direction::Up.to_delta(), UDelta2::new(0, -1));

    let c = UCoord2::new(3, 4);
    assert_eq!(c.get_neighbour(&Direction::Right), UCoord2::new(4, 4));
    assert_eq!(c.get_neighbour(&Direction::Up), UCoord2::new(3, 3));

    // rotation order from the given start, corner cells lose the steps that
    // would leave the representable range
    let ns = UCoord2::new(1, 1).neighbours_iter(Direction::Left);
    assert_eq!(ns, vec![
        UCoord2::new(0, 1),
        UCoord2::new(1, 0),
        UCoord2::new(2, 1),
        UCoord2::new(1, 2),
    ]);
    let ns = UCoord2::new(0, 0).neighbours_iter(Direction::Left);
    assert_eq!(ns, vec![UCoord2::new(1, 0), UCoord2::new(0, 1)]);
}

#[test]
fn vect_components() {
    let a = UCoord2::new(5, 7);
    let b = UCoord2::new(2, 9);
    let d = a.sub(b);
    assert_eq!(d, UDelta2::new(3, -2));
    assert_eq!(b.add(d), a);
    assert_eq!(d.length2(), 13);
    assert!(a.is(5, 7));
    assert!(!a.is(5, 8));
    let e = UDelta2::new(4, 3);
    assert_eq!(e.sub(UDelta2::new(1, 5)), UDelta2::new(3, -2));
    assert_eq!(e.x_usize(), 4);
    assert_eq!(e.y_usize(), 3);
    assert_eq!(e.xy_usize(), UCoord2::new(4, 3));
}
