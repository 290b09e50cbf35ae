use quadtree_impl::{Point, Quadrant};

#[test]
fn xy_addition() {
    assert_eq!(Point::from((0, 0)) + Point::from((0, 1)), (0, 1).into());
    assert_eq!(Point::from((0, 1)) + Point::from((0, 1)), (0, 2).into());
    assert_eq!(Point::from((1, 1)) + Point::from((0, 0)), (1, 1).into());
    assert_eq!(Point::from((1, 0)) + Point::from((0, 1)), (1, 1).into());
    assert_eq!(Point::from((0, 0)) + Point::from((4, 5)), (4, 5).into());
    assert_eq!(Point::from((4, 5)) + Point::from((0, 0)), (4, 5).into());
}

#[test]
fn xy_subtraction() {
    assert_eq!(Point::from((0, 1)) - Point::from((0, 0)), (0, 1).into());
    assert_eq!(Point::from((0, 1)) - Point::from((0, 1)), (0, 0).into());
    assert_eq!(Point::from((1, 1)) - Point::from((0, 0)), (1, 1).into());
    assert_eq!(Point::from((1, 1)) - Point::from((0, 1)), (1, 0).into());
    assert_eq!(Point::from((4, 5)) - Point::from((2, 2)), (2, 3).into());
    assert_eq!(Point::from((4, 5)) - Point::from((0, 0)), (4, 5).into());
}

#[test]
fn subtracting_positive_numbers() {
    assert_eq!(Point::from((0, 0)) - (1, 1).into(), (-1, -1).into());
    assert_eq!(Point::from((0, 0)) - (0, 1).into(), (0, -1).into());
    assert_eq!(Point::from((0, 0)) - (1, 0).into(), (-1, 0).into());

    assert_eq!(Point::from((1, 10)) - (2, 20).into(), (-1, -10).into());
}

#[test]
fn adding_negative_numbers() {
    assert_eq!(Point::from((0, 0)) + (-1, 0).into(), (-1, 0).into());
    assert_eq!(Point::from((0, 0)) + (-1, -1).into(), (-1, -1).into());
    assert_eq!(Point::from((0, 0)) + (0, -1).into(), (0, -1).into());

    assert_eq!(Point::from((1, 10)) + (-2, -20).into(), (-1, -10).into());
}

#[test]
fn dir_towards_in_quadrant_i() {
    let origin: Point = (2, 2).into();

    assert_eq!(origin.dir_towards((2, 1).into()), Quadrant::Northwest); // due north
    assert_eq!(origin.dir_towards((3, 1).into()), Quadrant::Northeast); // northeast
    assert_eq!(origin.dir_towards((3, 2).into()), Quadrant::Northeast); // due east
    assert_eq!(origin.dir_towards((3, 3).into()), Quadrant::Southeast); // southeast
    assert_eq!(origin.dir_towards((2, 3).into()), Quadrant::Southeast); // due south
    assert_eq!(origin.dir_towards((1, 3).into()), Quadrant::Southwest); // southwest
    assert_eq!(origin.dir_towards((1, 2).into()), Quadrant::Southwest); // due west
    assert_eq!(origin.dir_towards((1, 1).into()), Quadrant::Northwest); // northwest
}

#[test]
fn dir_towards_in_quadrant_ii() {
    let origin: Point = (-2, 2).into();

    assert_eq!(origin.dir_towards((-2, 1).into()), Quadrant::Northwest);
    assert_eq!(origin.dir_towards((-1, 1).into()), Quadrant::Northeast);
    assert_eq!(origin.dir_towards((-1, 2).into()), Quadrant::Northeast);
    assert_eq!(origin.dir_towards((-1, 3).into()), Quadrant::Southeast);
    assert_eq!(origin.dir_towards((-2, 3).into()), Quadrant::Southeast);
    assert_eq!(origin.dir_towards((-3, 3).into()), Quadrant::Southwest);
    assert_eq!(origin.dir_towards((-3, 2).into()), Quadrant::Southwest);
    assert_eq!(origin.dir_towards((-3, 1).into()), Quadrant::Northwest);
}

#[test]
fn dir_towards_in_quadrant_iii() {
    let origin: Point = (-2, -2).into();

    assert_eq!(origin.dir_towards((-2, -3).into()), Quadrant::Northwest);
    assert_eq!(origin.dir_towards((-1, -3).into()), Quadrant::Northeast);
    assert_eq!(origin.dir_towards((-1, -2).into()), Quadrant::Northeast);
    assert_eq!(origin.dir_towards((-1, -1).into()), Quadrant::Southeast);
    assert_eq!(origin.dir_towards((-2, -1).into()), Quadrant::Southeast);
    assert_eq!(origin.dir_towards((-3, -1).into()), Quadrant::Southwest);
    assert_eq!(origin.dir_towards((-3, -2).into()), Quadrant::Southwest);
    assert_eq!(origin.dir_towards((-3, -3).into()), Quadrant::Northwest);
}

#[test]
fn dir_towards_in_quadrant_iv() {
    let origin: Point = (2, -2).into();

    assert_eq!(origin.dir_towards((2, -3).into()), Quadrant::Northwest);
    assert_eq!(origin.dir_towards((3, -3).into()), Quadrant::Northeast);
    assert_eq!(origin.dir_towards((3, -2).into()), Quadrant::Northeast);
    assert_eq!(origin.dir_towards((3, -1).into()), Quadrant::Southeast);
    assert_eq!(origin.dir_towards((2, -1).into()), Quadrant::Southeast);
    assert_eq!(origin.dir_towards((1, -1).into()), Quadrant::Southwest);
    assert_eq!(origin.dir_towards((1, -2).into()), Quadrant::Southwest);
    assert_eq!(origin.dir_towards((1, -3).into()), Quadrant::Northwest);
}

#[test]
fn dir_towards_from_origin() {
    let origin: Point = (0, 0).into();

    assert_eq!(origin.dir_towards((0, -1).into()), Quadrant::Northwest);
    assert_eq!(origin.dir_towards((1, -1).into()), Quadrant::Northeast);
    assert_eq!(origin.dir_towards((1, 0).into()), Quadrant::Northeast);
    assert_eq!(origin.dir_towards((1, 1).into()), Quadrant::Southeast);
    assert_eq!(origin.dir_towards((0, 1).into()), Quadrant::Southeast);
    assert_eq!(origin.dir_towards((-1, 1).into()), Quadrant::Southwest);
    assert_eq!(origin.dir_towards((-1, 0).into()), Quadrant::Southwest);
    assert_eq!(origin.dir_towards((-1, -1).into()), Quadrant::Northwest);
}

#[test]
fn dir_towards_covers_every_neighbour_once() {
    let origin = Point::new(0, 0);
    let mut counts = [0usize; 4];
    for x in -3i64..=3 {
        for y in -3i64..=3 {
            if x == 0 && y == 0 {
                continue;
            }
            let q = origin.dir_towards(Point::new(x, y));
            let k = match q {
                Quadrant::Northeast => 0,
                Quadrant::Northwest => 1,
                Quadrant::Southeast => 2,
                Quadrant::Southwest => 3,
            };
            counts[k] += 1;
        }
    }
    // Each quadrant is a 3 by 4 half-open block of the 48 neighbours.
    assert_eq!(counts, [12, 12, 12, 12]);
}

#[test]
fn add_then_sub_round_trip() {
    let p = Point::new(-7, 12);
    let q = Point::new(30, -40);
    assert_eq!(p + q - q, p);
    assert_eq!(Point::from((0, 0)) - Point::from((1, 1)), Point::new(-1, -1));
    let t: (i64, i64) = Point::new(3, 4).into();
    assert_eq!(t, (3, 4));
    assert_eq!(Point::new(3, 4).x(), 3);
    assert_eq!(Point::new(3, 4).y(), 4);
}
