use pathtrace::aabb::{Aabb, GridPoint};
use pathtrace::bvh::{nearest_linear, Bvh};

fn boxed(x0: i64, y0: i64, z0: i64, x1: i64, y1: i64, z1: i64) -> Aabb {
    Aabb::new(GridPoint { x: x0, y: y0, z: z0 }, GridPoint { x: x1, y: y1, z: z1 }).unwrap()
}

/// Distance along an axis-parallel ray travelling towards +x from `origin`
/// to the box: the entry distance, zero when the origin is inside.
fn ray_x(origin: (i64, i64, i64), b: &Aabb) -> Option<u32> {
    let (ox, oy, oz) = origin;
    if oy < b.min.y || oy > b.max.y || oz < b.min.z || oz > b.max.z || b.max.x < ox {
        None
    } else if b.min.x <= ox {
        Some(0)
    } else {
        Some((b.min.x - ox) as u32)
    }
}

/// A small deterministic generator for scattered boxes.
fn next(state: &mut u64) -> i64 {
    *state = state.wrapping_mul(6364136223846793005).wrapping_add(1442695040888963407);
    ((*state >> 33) % 200) as i64 - 100
}

fn scattered(count: usize, seed: u64) -> Vec<Aabb> {
    let mut s = seed;
    let mut v = Vec::new();
    for _ in 0..count {
        let x = next(&mut s);
        let y = next(&mut s);
        let z = next(&mut s);
        let w = next(&mut s).abs() % 30;
        let h = next(&mut s).abs() % 30;
        let d = next(&mut s).abs() % 30;
        v.push(boxed(x, y, z, x + w, y + h, z + d));
    }
    v
}

#[test]
fn empty_scene_has_no_hit() {
    let prims: Vec<Aabb> = Vec::new();
    let bvh = Bvh::new(&prims);
    assert_eq!(bvh.len(), 0);
    assert_eq!(bvh.node_count(), 0);
    let hit = |_i: usize| -> Option<u32> { Some(1) };
    let entry = |_b: Aabb| -> Option<u32> { Some(0) };
    assert_eq!(bvh.intersect_closest(&hit, &entry), None);
}

#[test]
fn single_primitive_is_found() {
    let prims = vec![boxed(10, -1, -1, 12, 1, 1)];
    let bvh = Bvh::new(&prims);
    let o = (0, 0, 0);
    let hit = |i: usize| ray_x(o, &prims[i]);
    let entry = |b: Aabb| ray_x(o, &b);
    assert_eq!(bvh.intersect_closest(&hit, &entry), Some((0, 10)));
    assert_eq!(bvh.node_count(), 1);
}

#[test]
fn nearest_of_a_row_of_boxes() {
    let mut prims = Vec::new();
    for k in 0..20i64 {
        let x = 100 - 5 * k;
        prims.push(boxed(x, -1, -1, x + 1, 1, 1));
    }
    let bvh = Bvh::new(&prims);
    let o = (0, 0, 0);
    let hit = |i: usize| ray_x(o, &prims[i]);
    let entry = |b: Aabb| ray_x(o, &b);
    assert_eq!(bvh.intersect_closest(&hit, &entry), Some((19, 5)));
    let behind = (200, 0, 0);
    let hit = |i: usize| ray_x(behind, &prims[i]);
    let entry = |b: Aabb| ray_x(behind, &b);
    assert_eq!(bvh.intersect_closest(&hit, &entry), None);
}

#[test]
fn hierarchy_agrees_with_linear_scan() {
    for seed in 1..6u64 {
        let prims = scattered(150, seed);
        let bvh = Bvh::new(&prims);
        assert_eq!(bvh.len(), 150);
        assert!(bvh.node_count() >= 150 / 4);
        for oy in (-100..130).step_by(7) {
            for oz in (-100..130).step_by(11) {
                let o = (-150, oy, oz);
                let hit = |i: usize| ray_x(o, &prims[i]);
                let entry = |b: Aabb| ray_x(o, &b);
                let a = bvh.intersect_closest(&hit, &entry);
                let l = nearest_linear(prims.len(), &hit);
                assert_eq!(a.map(|h| h.1), l.map(|h| h.1));
                if let Some((i, d)) = a {
                    assert_eq!(ray_x(o, &prims[i]), Some(d));
                }
            }
        }
    }
}

#[test]
fn linear_scan_keeps_first_of_equal_hits() {
    let prims = vec![boxed(5, 0, 0, 6, 0, 0), boxed(3, 0, 0, 4, 0, 0), boxed(3, 0, 0, 9, 0, 0)];
    let o = (0, 0, 0);
    let hit = |i: usize| ray_x(o, &prims[i]);
    assert_eq!(nearest_linear(prims.len(), &hit), Some((1, 3)));
    assert_eq!(nearest_linear(0, &hit), None);
}

#[test]
fn root_box_holds_every_primitive() {
    let prims = scattered(40, 9);
    let bvh = Bvh::new(&prims);
    let root = bvh.root_bounds().unwrap();
    let mut all = prims[0];
    for b in &prims {
        assert!(root.contains(b));
        all = all.union(b);
    }
    assert_eq!(root, all);
    assert_eq!(Bvh::new(&Vec::new()).root_bounds(), None);
}
