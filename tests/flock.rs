use boids::coord::Coord;
use boids::flock::{border_flips, build_or_update_quadtree, footprint, neighbours, turn_back, Heading};
use boids::region::Region;
use boids::tree::QuadTree;

#[derive(Clone, Copy, Debug, PartialEq)]
struct Body {
    position: [f32; 3],
    velocity: [f32; 3],
}

fn reg(x0: i32, y0: i32, x1: i32, y1: i32) -> Region {
    Region::new(Coord::new(x0, y0), Coord::new(x1, y1))
}

#[test]
fn footprint_around_center() {
    assert_eq!(footprint(Coord::new(5, -2), Coord::new(1, 3)), reg(4, -5, 6, 1));
}

#[test]
fn two_agents_see_each_other() {
    let world = reg(-10, -10, 10, 10);
    let mut tree: QuadTree<Body> = QuadTree::new(world);
    let a = Body { position: [0.0, 0.0, 0.0], velocity: [1.0, 0.0, 0.0] };
    let b = Body { position: [5.0, 5.0, 0.0], velocity: [0.0, 1.0, 0.0] };
    let half = Coord::new(1, 1);
    let fa = footprint(Coord::new(0, 0), half);
    let fb = footprint(Coord::new(5, 5), half);
    let ids = build_or_update_quadtree(&mut tree, &vec![(fa, a), (fb, b)]);
    assert_eq!(ids.len(), 2);
    let near_a = neighbours(&tree, &fa, 5, Some(ids[0]));
    assert_eq!(near_a.len(), 1);
    assert_eq!(*near_a[0], b);
    let near_b = neighbours(&tree, &fb, 5, Some(ids[1]));
    assert_eq!(near_b, vec![&a]);
    // without vision the footprints do not meet
    assert!(neighbours(&tree, &fa, 0, Some(ids[0])).is_empty());
    // without its own handle an agent finds itself too
    assert_eq!(neighbours(&tree, &fa, 5, None).len(), 2);
}

#[test]
fn rebuild_replaces_previous_tick() {
    let mut tree: QuadTree<u8> = QuadTree::new(reg(-50, -50, 50, 50));
    let first = build_or_update_quadtree(&mut tree, &vec![(reg(0, 0, 1, 1), 1), (reg(2, 2, 3, 3), 2)]);
    let second = build_or_update_quadtree(&mut tree, &vec![(reg(10, 10, 11, 11), 3)]);
    assert_eq!(tree.get(&first[0]), None);
    assert_eq!(tree.get(&first[1]), None);
    assert_eq!(tree.get(&second[0]), Some(&3));
    assert_eq!(tree.query(&reg(-50, -50, 50, 50), &vec![]), vec![&3]);
}

#[test]
fn turn_back_only_when_heading_out() {
    assert!(turn_back(-85, -100, 100, 20, Heading::Negative));
    assert!(!turn_back(-85, -100, 100, 20, Heading::Positive));
    assert!(!turn_back(-85, -100, 100, 20, Heading::Still));
    assert!(turn_back(85, -100, 100, 20, Heading::Positive));
    assert!(!turn_back(80, -100, 100, 20, Heading::Positive));
    assert!(!turn_back(0, -100, 100, 20, Heading::Negative));
}

#[test]
fn border_flips_per_axis() {
    let world = reg(-100, -100, 100, 100);
    assert_eq!(border_flips(Coord::new(-90, 95), &world, Heading::Negative, Heading::Positive), (true, true));
    assert_eq!(border_flips(Coord::new(-90, 95), &world, Heading::Positive, Heading::Negative), (false, false));
    assert_eq!(border_flips(Coord::new(0, 0), &world, Heading::Negative, Heading::Positive), (false, false));
    assert_eq!(border_flips(Coord::new(i32::MAX, i32::MIN), &reg(i32::MIN, i32::MIN, i32::MAX, i32::MAX), Heading::Positive, Heading::Negative), (true, true));
}
