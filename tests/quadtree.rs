use boids::coord::Coord;
use boids::region::Region;
use boids::slot_map::SlotMap;
use boids::tree::QuadTree;

fn reg(x0: i32, y0: i32, x1: i32, y1: i32) -> Region {
    Region::new(Coord::new(x0, y0), Coord::new(x1, y1))
}

fn world() -> QuadTree<u32> {
    QuadTree::new(reg(-100, -100, 100, 100))
}

#[test]
fn region_contains_point_on_edges() {
    let r = reg(0, 0, 10, 10);
    assert!(r.contains(&Coord::new(0, 0)));
    assert!(r.contains(&Coord::new(10, 10)));
    assert!(r.contains(&Coord::new(5, 7)));
    assert!(!r.contains(&Coord::new(11, 5)));
    assert!(!r.contains(&Coord::new(5, -1)));
}

#[test]
fn region_touching_edges_intersect() {
    let a = reg(0, 0, 10, 10);
    assert!(a.intersects(&reg(10, 10, 20, 20)));
    assert!(a.intersects(&reg(-5, 3, 0, 4)));
    assert!(!a.intersects(&reg(11, 0, 20, 10)));
    assert!(!a.intersects(&reg(0, 11, 10, 20)));
}

#[test]
fn region_with_margin_grows_every_side() {
    let r = reg(-3, 2, 4, 6).with_margin(5);
    assert_eq!(r, reg(-8, -3, 9, 11));
    assert_eq!(reg(1, 1, 2, 2).with_margin(0), reg(1, 1, 2, 2));
}

#[test]
fn region_contains_region() {
    let r = reg(0, 0, 10, 10);
    assert!(r.contains_region(&reg(0, 0, 10, 10)));
    assert!(r.contains_region(&reg(2, 3, 4, 5)));
    assert!(!r.contains_region(&reg(2, 3, 11, 5)));
}

#[test]
fn region_quadrants_split_at_floored_midpoint() {
    let q = reg(0, 0, 10, 10).split_into_quadrants();
    assert_eq!(q[0], reg(0, 5, 5, 10));
    assert_eq!(q[1], reg(5, 5, 10, 10));
    assert_eq!(q[2], reg(0, 0, 5, 5));
    assert_eq!(q[3], reg(5, 0, 10, 5));
    let n = reg(-10, -7, 5, 0).split_into_quadrants();
    assert_eq!(n[2], reg(-10, -7, -3, -4));
    assert_eq!(n[1], reg(-3, -4, 5, 0));
}

#[test]
fn region_quadrants_of_full_i32_range() {
    let q = reg(i32::MIN, i32::MIN, i32::MAX, i32::MAX).split_into_quadrants();
    assert_eq!(q[2], reg(i32::MIN, i32::MIN, -1, -1));
    assert_eq!(q[1], reg(-1, -1, i32::MAX, i32::MAX));
}

#[test]
fn slot_map_stale_handle_after_clear() {
    let mut m: SlotMap<u32> = SlotMap::new();
    let a = m.insert(7);
    let b = m.insert(9);
    assert_eq!(m.len(), 2);
    assert_eq!(m.get(&a), Some(&7));
    assert_eq!(m.get(&b), Some(&9));
    m.clear();
    assert_eq!(m.len(), 0);
    assert_eq!(m.get(&a), None);
    let c = m.insert(11);
    assert_eq!(m.get(&c), Some(&11));
    assert_eq!(m.get(&a), None);
    assert_ne!(a, c);
}

#[test]
fn tree_size_is_world() {
    let t = world();
    assert_eq!(*t.size(), reg(-100, -100, 100, 100));
    assert_eq!(t.get_regions().len(), 1);
}

#[test]
fn tree_round_trip_full_world_query() {
    let mut t = world();
    let id = t.insert(reg(3, 3, 5, 5), 42);
    let found = t.query(&reg(-100, -100, 100, 100), &vec![]);
    assert_eq!(found, vec![&42]);
    assert_eq!(t.get(&id), Some(&42));
}

#[test]
fn tree_query_leaves_out_excluded() {
    let mut t = world();
    let a = t.insert(reg(0, 0, 2, 2), 1);
    let _b = t.insert(reg(1, 1, 3, 3), 2);
    let found = t.query(&reg(0, 0, 5, 5), &vec![a]);
    assert_eq!(found, vec![&2]);
}

#[test]
fn tree_query_only_intersecting() {
    let mut t = world();
    t.insert(reg(0, 0, 2, 2), 1);
    t.insert(reg(50, 50, 60, 60), 2);
    t.insert(reg(-60, -60, -50, -50), 3);
    let mut found: Vec<u32> = t.query(&reg(1, 1, 55, 55), &vec![]).into_iter().copied().collect();
    found.sort();
    assert_eq!(found, vec![1, 2]);
}

#[test]
fn tree_query_outside_world_is_empty() {
    let mut t = world();
    t.insert(reg(150, 150, 160, 160), 5);
    assert!(t.query(&reg(140, 140, 170, 170), &vec![]).is_empty());
}

#[test]
fn tree_clear_resets_state() {
    let mut t = world();
    let ids: Vec<_> = (0..10).map(|i| t.insert(reg(i, i, i + 1, i + 1), i as u32)).collect();
    assert_eq!(t.query(&reg(-100, -100, 100, 100), &vec![]).len(), 10);
    t.clear();
    assert!(t.query(&reg(-100, -100, 100, 100), &vec![]).is_empty());
    assert!(t.query(&reg(-1000, -1000, 1000, 1000), &vec![]).is_empty());
    for id in &ids {
        assert_eq!(t.get(id), None);
    }
    assert_eq!(t.get_regions().len(), 1);
}

#[test]
fn tree_split_places_entries_in_quadrants() {
    let mut t = world();
    t.insert(reg(-90, 10, -80, 20), 1);
    t.insert(reg(10, 10, 20, 20), 2);
    t.insert(reg(-90, -90, -80, -80), 3);
    t.insert(reg(10, -90, 20, -80), 4);
    assert_eq!(t.get_regions().len(), 1);
    t.insert(reg(-5, -5, 5, 5), 5);
    let regions = t.get_regions();
    assert_eq!(regions.len(), 5);
    assert_eq!(*regions[0], reg(-100, -100, 100, 100));
    assert_eq!(*regions[1], reg(-100, 0, 0, 100));
    assert_eq!(*regions[4], reg(0, -100, 100, 0));
    let ne: Vec<u32> = t.query(&reg(1, 1, 100, 100), &vec![]).into_iter().copied().collect();
    let mut ne = ne;
    ne.sort();
    assert_eq!(ne, vec![2, 5]);
    let sw: Vec<u32> = t.query(&reg(-100, -100, -1, -1), &vec![]).into_iter().copied().collect();
    let mut sw = sw;
    sw.sort();
    assert_eq!(sw, vec![3, 5]);
    let nw_only: Vec<u32> = t.query(&reg(-95, 15, -85, 95), &vec![]).into_iter().copied().collect();
    assert_eq!(nw_only, vec![1]);
}

#[test]
fn tree_many_entries_all_found() {
    let mut t = world();
    for i in 0..200 {
        let x = (i * 37) % 190 - 95;
        let y = (i * 53) % 190 - 95;
        t.insert(reg(x, y, x + 3, y + 3), i as u32);
    }
    assert!(t.get_regions().len() > 5);
    let mut all: Vec<u32> = t.query(&reg(-100, -100, 100, 100), &vec![]).into_iter().copied().collect();
    all.sort();
    assert_eq!(all, (0..200).collect::<Vec<u32>>());
}

#[test]
fn tree_deep_cluster_is_accepted() {
    let mut t = world();
    for i in 0..50 {
        t.insert(reg(1, 1, 1, 1), i);
    }
    assert_eq!(t.query(&reg(1, 1, 1, 1), &vec![]).len(), 50);
}

#[test]
fn tree_second_clear_matches_first() {
    let mut t = world();
    for i in 0..20 {
        t.insert(reg(i * 9 - 95, i * 9 - 95, i * 9 - 90, i * 9 - 90), i as u32);
    }
    assert!(t.get_regions().len() > 1);
    t.clear();
    let once: Vec<Region> = t.get_regions().into_iter().copied().collect();
    t.clear();
    let twice: Vec<Region> = t.get_regions().into_iter().copied().collect();
    assert_eq!(once, vec![reg(-100, -100, 100, 100)]);
    assert_eq!(once, twice);
    assert_eq!(*t.size(), reg(-100, -100, 100, 100));
    assert!(t.query(&reg(-100, -100, 100, 100), &vec![]).is_empty());
}

#[test]
fn tree_listing_nested_in_world() {
    let mut t = world();
    let w = reg(-100, -100, 100, 100);
    for i in 0..60 {
        let x = (i * 29) % 180 - 90;
        let y = (i * 71) % 180 - 90;
        t.insert(reg(x, y, x + 2, y + 2), i as u32);
    }
    let regions = t.get_regions();
    assert_eq!(*regions[0], w);
    assert_eq!((regions.len() - 1) % 4, 0);
    for r in &regions {
        assert!(w.contains_region(r));
    }
}
