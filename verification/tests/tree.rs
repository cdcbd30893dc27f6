use octree::octree::Cell;
use octree::raster::pxl2idx;
use octree::single::Single;
use octree::Octree;

fn s(x: f32) -> Single {
    Single::from_bits(x.to_bits())
}

fn f(x: Single) -> f32 {
    f32::from_bits(x.to_bits())
}

fn pt(x: f32, y: f32) -> (Single, Single) {
    (s(x), s(y))
}

fn center(t: &Octree) -> (f32, f32) {
    (f(t.center.0), f(t.center.1))
}

fn shape(t: &Octree) -> (f32, f32) {
    (f(t.shape.0), f(t.shape.1))
}

fn kids(t: &Octree) -> [&Octree; 4] {
    let c = t.children.as_ref().expect("a split node");
    [&*c.nw, &*c.ne, &*c.sw, &*c.se]
}

fn is_leaf(t: &Octree) -> bool {
    t.children.is_none()
}

fn unit(max_depth: usize) -> Octree {
    Octree::new(pt(0.5, 0.5), pt(1.0, 1.0), max_depth)
}

fn dump(t: &Octree, path: &mut Vec<u8>, out: &mut Vec<(Vec<u8>, [u32; 4], usize, bool)>) {
    out.push((
        path.clone(),
        [t.center.0.to_bits(), t.center.1.to_bits(), t.shape.0.to_bits(), t.shape.1.to_bits()],
        t.max_depth,
        is_leaf(t),
    ));
    if t.children.is_some() {
        for (i, k) in kids(t).iter().enumerate() {
            path.push(i as u8);
            dump(k, path, out);
            path.pop();
        }
    }
}

fn dumped(t: &Octree) -> Vec<(Vec<u8>, [u32; 4], usize, bool)> {
    let mut out = Vec::new();
    dump(t, &mut Vec::new(), &mut out);
    out
}

fn height(t: &Octree) -> usize {
    if is_leaf(t) {
        0
    } else {
        1 + kids(t).iter().map(|k| height(k)).max().unwrap()
    }
}

#[test]
fn new_makes_a_leaf_with_the_given_fields() {
    let t = Octree::new(pt(0.25, -3.0), pt(8.0, 0.5), 7);
    assert_eq!(center(&t), (0.25, -3.0));
    assert_eq!(shape(&t), (8.0, 0.5));
    assert_eq!(t.max_depth, 7);
    assert!(is_leaf(&t));
}

#[test]
fn split_makes_the_four_quadrants() {
    let mut t = Octree::new(pt(3.0, -1.0), pt(8.0, 2.0), 5);
    t.split();
    assert_eq!(center(&t), (3.0, -1.0));
    assert_eq!(shape(&t), (8.0, 2.0));
    let k = kids(&t);
    assert_eq!(center(k[0]), (1.0, -1.5));
    assert_eq!(center(k[1]), (5.0, -1.5));
    assert_eq!(center(k[2]), (1.0, -0.5));
    assert_eq!(center(k[3]), (5.0, -0.5));
    for c in k {
        assert_eq!(shape(c), (4.0, 1.0));
        assert_eq!(c.max_depth, 5);
        assert!(is_leaf(c));
    }
}

#[test]
fn split_replaces_what_was_below() {
    let mut t = unit(3);
    t.insert(pt(0.2, 0.2));
    assert_eq!(height(&t), 3);
    t.split();
    assert_eq!(height(&t), 1);
    for c in kids(&t) {
        assert!(is_leaf(c));
    }
}

#[test]
fn one_point_splits_its_path_only() {
    let mut t = unit(2);
    t.insert(pt(0.2, 0.2));
    let k = kids(&t);
    assert_eq!(center(k[0]), (0.25, 0.25));
    assert_eq!(center(k[1]), (0.75, 0.25));
    assert_eq!(center(k[2]), (0.25, 0.75));
    assert_eq!(center(k[3]), (0.75, 0.75));
    for c in k {
        assert_eq!(shape(c), (0.5, 0.5));
    }
    let g = kids(k[0]);
    assert_eq!(center(g[0]), (0.125, 0.125));
    assert_eq!(center(g[1]), (0.375, 0.125));
    assert_eq!(center(g[2]), (0.125, 0.375));
    assert_eq!(center(g[3]), (0.375, 0.375));
    for c in g {
        assert_eq!(shape(c), (0.25, 0.25));
        assert!(is_leaf(c));
        assert_eq!(c.max_depth, 2);
    }
    assert!(is_leaf(k[1]));
    assert!(is_leaf(k[2]));
    assert!(is_leaf(k[3]));
}

#[test]
fn two_points_in_different_quadrants_share_the_root_split_only() {
    let mut t = unit(3);
    t.insert(pt(0.2, 0.2));
    t.insert(pt(0.8, 0.4));
    let k = kids(&t);
    assert_eq!(height(k[0]), 2);
    assert_eq!(height(k[1]), 2);
    assert!(is_leaf(k[2]));
    assert!(is_leaf(k[3]));
    // (0.2, 0.2) lies north-west of (0.25, 0.25), then south-east of (0.125, 0.125)
    let a = kids(k[0]);
    assert!(!is_leaf(a[0]) && is_leaf(a[1]) && is_leaf(a[2]) && is_leaf(a[3]));
    let aa = kids(a[0]);
    assert!(is_leaf(aa[0]) && is_leaf(aa[1]) && is_leaf(aa[2]) && is_leaf(aa[3]));
    assert_eq!(center(aa[3]), (0.1875, 0.1875));
    // (0.8, 0.4) lies south-east of (0.75, 0.25), then north-west of (0.875, 0.375) in x only
    let b = kids(k[1]);
    assert!(is_leaf(b[0]) && is_leaf(b[1]) && is_leaf(b[2]) && !is_leaf(b[3]));
    assert_eq!(center(b[3]), (0.875, 0.375));
    let mut alone = unit(3);
    alone.insert(pt(0.8, 0.4));
    assert_eq!(dumped(kids(&alone)[1]), dumped(k[1]));
}

#[test]
fn inserting_twice_is_inserting_once() {
    for p in [(0.2, 0.2), (0.8, 0.4), (0.5, 0.5), (1.0, 1.0), (0.0, 0.0), (0.3, 0.7)] {
        let mut t = unit(6);
        t.insert(pt(0.7, 0.9));
        t.insert(pt(p.0, p.1));
        let once = dumped(&t);
        t.insert(pt(p.0, p.1));
        assert_eq!(dumped(&t), once);
    }
}

#[test]
fn a_point_on_the_vertical_midline_goes_east() {
    let mut t = unit(2);
    t.insert(pt(0.5, 0.2));
    let k = kids(&t);
    assert!(is_leaf(k[0]) && !is_leaf(k[1]) && is_leaf(k[2]) && is_leaf(k[3]));
    let mut t = unit(2);
    t.insert(pt(0.5, 0.9));
    let k = kids(&t);
    assert!(is_leaf(k[0]) && is_leaf(k[1]) && is_leaf(k[2]) && !is_leaf(k[3]));
}

#[test]
fn a_point_on_the_horizontal_midline_goes_south() {
    let mut t = unit(2);
    t.insert(pt(0.2, 0.5));
    let k = kids(&t);
    assert!(is_leaf(k[0]) && is_leaf(k[1]) && !is_leaf(k[2]) && is_leaf(k[3]));
    let mut t = unit(2);
    t.insert(pt(0.5, 0.5));
    let k = kids(&t);
    assert!(is_leaf(k[0]) && is_leaf(k[1]) && is_leaf(k[2]) && !is_leaf(k[3]));
}

#[test]
fn zero_of_either_sign_is_on_the_midline() {
    let mut t = Octree::new(pt(0.0, 0.0), pt(2.0, 2.0), 1);
    t.insert(pt(-0.0, -0.0));
    assert!(!is_leaf(&t));
    let mut u = Octree::new(pt(-0.0, -0.0), pt(2.0, 2.0), 2);
    u.insert(pt(0.0, 0.0));
    let k = kids(&u);
    assert!(is_leaf(k[0]) && is_leaf(k[1]) && is_leaf(k[2]) && !is_leaf(k[3]));
}

#[test]
fn what_is_not_a_number_goes_south_east() {
    let mut t = unit(2);
    t.insert(pt(f32::NAN, f32::NAN));
    let k = kids(&t);
    assert!(is_leaf(k[0]) && is_leaf(k[1]) && is_leaf(k[2]) && !is_leaf(k[3]));
}

#[test]
fn depth_zero_never_splits() {
    let mut t = unit(0);
    for p in [(0.2, 0.2), (0.8, 0.4), (0.3, 0.7), (0.7, 0.9)] {
        t.insert(pt(p.0, p.1));
        assert!(is_leaf(&t));
    }
    assert_eq!(center(&t), (0.5, 0.5));
    assert_eq!(shape(&t), (1.0, 1.0));
}

#[test]
fn the_path_of_a_point_is_as_long_as_the_depth_bound() {
    for depth in 1..12usize {
        let mut t = unit(depth);
        t.insert(pt(0.3, 0.7));
        assert_eq!(height(&t), depth);
        let mut node = &t;
        let mut steps = 0;
        while !is_leaf(node) {
            let (cx, cy) = center(node);
            let (w, h) = shape(node);
            assert!(cx - w / 2.0 <= 0.3 && 0.3 <= cx + w / 2.0);
            assert!(cy - h / 2.0 <= 0.7 && 0.7 <= cy + h / 2.0);
            let split: Vec<&Octree> = kids(node).into_iter().filter(|k| !is_leaf(k)).collect();
            if steps + 1 < depth {
                assert_eq!(split.len(), 1);
                node = split[0];
            } else {
                assert!(split.is_empty());
                let idx = if 0.3 < cx { if 0.7 < cy { 0 } else { 2 } } else if 0.7 < cy { 1 } else { 3 };
                node = kids(node)[idx];
            }
            steps += 1;
        }
        assert_eq!(steps, depth);
    }
}

#[test]
fn points_outside_the_region_are_routed_all_the_same() {
    let mut t = unit(3);
    t.insert(pt(-5.0, 17.0));
    assert_eq!(height(&t), 3);
    let k = kids(&t);
    assert!(is_leaf(k[0]) && is_leaf(k[1]) && !is_leaf(k[2]) && is_leaf(k[3]));
}

#[test]
fn the_depth_bound_is_handed_down() {
    let mut t = unit(4);
    t.insert(pt(0.2, 0.2));
    t.insert(pt(0.7, 0.9));
    for (_, _, max_depth, _) in dumped(&t) {
        assert_eq!(max_depth, 4);
    }
}

struct Plain {
    center: (f32, f32),
    shape: (f32, f32),
    children: Option<Vec<Plain>>,
    max_depth: usize,
}

impl Plain {
    fn new(center: (f32, f32), shape: (f32, f32), max_depth: usize) -> Plain {
        Plain { center, shape, children: None, max_depth }
    }

    fn insert(&mut self, point: (f32, f32), depth: usize) {
        if depth >= self.max_depth {
            return;
        }
        let (cx, cy) = self.center;
        let (w, h) = self.shape;
        if self.children.is_none() {
            self.children = Some(vec![
                Plain::new((cx - w / 4.0, cy - h / 4.0), (w / 2.0, h / 2.0), self.max_depth),
                Plain::new((cx + w / 4.0, cy - h / 4.0), (w / 2.0, h / 2.0), self.max_depth),
                Plain::new((cx - w / 4.0, cy + h / 4.0), (w / 2.0, h / 2.0), self.max_depth),
                Plain::new((cx + w / 4.0, cy + h / 4.0), (w / 2.0, h / 2.0), self.max_depth),
            ]);
        }
        let idx = if point.0 < cx {
            if point.1 < cy { 0 } else { 2 }
        } else if point.1 < cy {
            1
        } else {
            3
        };
        self.children.as_mut().unwrap()[idx].insert(point, depth + 1);
    }
}

fn agree(a: f32, b: Single) -> bool {
    if a.is_nan() {
        f(b).is_nan()
    } else {
        a.to_bits() == b.to_bits()
    }
}

fn same_tree(p: &Plain, t: &Octree) -> bool {
    if !(agree(p.center.0, t.center.0)
        && agree(p.center.1, t.center.1)
        && agree(p.shape.0, t.shape.0)
        && agree(p.shape.1, t.shape.1)
        && p.max_depth == t.max_depth)
    {
        return false;
    }
    match (&p.children, &t.children) {
        (None, None) => true,
        (Some(pc), Some(_)) => pc.iter().zip(kids(t)).all(|(a, b)| same_tree(a, b)),
        _ => false,
    }
}

struct Stream(u64);

impl Stream {
    fn next(&mut self) -> u32 {
        self.0 = self.0.wrapping_mul(6364136223846793005).wrapping_add(1442695040888963407);
        (self.0 >> 32) as u32
    }

    fn unit(&mut self) -> f32 {
        (self.next() >> 8) as f32 / 16777216.0
    }
}

#[test]
fn trees_over_the_unit_square_match_hardware_arithmetic() {
    let mut r = Stream(7);
    for round in 0..40 {
        let depth = round % 9;
        let mut p = Plain::new((0.5, 0.5), (1.0, 1.0), depth);
        let mut t = unit(depth);
        for _ in 0..20 {
            let (x, y) = (r.unit(), r.unit());
            p.insert((x, y), 0);
            t.insert(pt(x, y));
            assert!(same_tree(&p, &t));
        }
    }
}

#[test]
fn deep_trees_match_hardware_arithmetic_where_it_rounds() {
    let mut r = Stream(11);
    for _ in 0..10 {
        let mut p = Plain::new((0.1, 0.7), (0.3, 1.9), 200);
        let mut t = Octree::new(pt(0.1, 0.7), pt(0.3, 1.9), 200);
        for _ in 0..5 {
            let (x, y) = (r.unit(), r.unit());
            p.insert((x, y), 0);
            t.insert(pt(x, y));
        }
        assert!(same_tree(&p, &t));
    }
}

#[test]
fn trees_over_arbitrary_patterns_match_hardware_arithmetic() {
    let mut r = Stream(13);
    for _ in 0..300 {
        let c = (f32::from_bits(r.next()), f32::from_bits(r.next()));
        let w = (f32::from_bits(r.next()), f32::from_bits(r.next()));
        let mut p = Plain::new(c, w, 12);
        let mut t = Octree::new(pt(c.0, c.1), pt(w.0, w.1), 12);
        for _ in 0..6 {
            let (x, y) = (f32::from_bits(r.next()), f32::from_bits(r.next()));
            p.insert((x, y), 0);
            t.insert(pt(x, y));
        }
        assert!(same_tree(&p, &t));
    }
}

fn drawn(cells: &[Cell]) -> Vec<((f32, f32), (f32, f32), usize)> {
    cells.iter().map(|c| ((f(c.center.0), f(c.center.1)), (f(c.shape.0), f(c.shape.1)), c.depth)).collect()
}

#[test]
fn a_leaf_is_drawn_alone() {
    let t = unit(4);
    assert_eq!(drawn(&t.draw_order()), vec![((0.5, 0.5), (1.0, 1.0), 0)]);
}

#[test]
fn children_are_drawn_before_their_parent() {
    let mut t = unit(2);
    t.insert(pt(0.2, 0.2));
    let q = (0.25, 0.25);
    let h = (0.5, 0.5);
    assert_eq!(
        drawn(&t.draw_order()),
        vec![
            ((0.125, 0.125), q, 2),
            ((0.375, 0.125), q, 2),
            ((0.125, 0.375), q, 2),
            ((0.375, 0.375), q, 2),
            ((0.25, 0.25), h, 1),
            ((0.75, 0.25), h, 1),
            ((0.25, 0.75), h, 1),
            ((0.75, 0.75), h, 1),
            ((0.5, 0.5), (1.0, 1.0), 0),
        ]
    );
}

#[test]
fn every_node_is_drawn_once() {
    let mut t = unit(6);
    for p in [(0.2, 0.2), (0.8, 0.4), (0.3, 0.7), (0.7, 0.9)] {
        t.insert(pt(p.0, p.1));
    }
    let cells = t.draw_order();
    assert_eq!(cells.len(), dumped(&t).len());
    assert_eq!(cells.last().unwrap().depth, 0);
    assert_eq!(cells.iter().map(|c| c.depth).max(), Some(6));
}

#[test]
fn pixels_are_addressed_row_after_row() {
    assert_eq!(pxl2idx((0, 0)), 0);
    assert_eq!(pxl2idx((3, 2)), 3003);
    assert_eq!(pxl2idx((1499, 0)), 1499);
    assert_eq!(pxl2idx((0, 1)), 1500);
    assert_eq!(pxl2idx((1499, 1499)), 2_249_999);
}

fn splits_exactly(t: &Octree) -> bool {
    let (cx, cy) = (center(t).0 as f64, center(t).1 as f64);
    let (w, h) = (shape(t).0 as f64, shape(t).1 as f64);
    let want = [
        (cx - w / 4.0, cy - h / 4.0),
        (cx + w / 4.0, cy - h / 4.0),
        (cx - w / 4.0, cy + h / 4.0),
        (cx + w / 4.0, cy + h / 4.0),
    ];
    kids(t).iter().zip(want).all(|(k, c)| {
        (center(k).0 as f64, center(k).1 as f64) == c && (shape(k).0 as f64, shape(k).1 as f64) == (w / 2.0, h / 2.0)
    })
}

fn first_inexact_depth(t: &Octree, depth: usize) -> Option<usize> {
    if is_leaf(t) {
        return None;
    }
    if !splits_exactly(t) {
        return Some(depth);
    }
    kids(t).iter().filter_map(|k| first_inexact_depth(k, depth + 1)).min()
}

#[test]
fn the_unit_square_splits_exactly_for_twenty_three_levels() {
    let mut r = Stream(17);
    let mut t = unit(23);
    t.insert(pt(0.9, 0.9));
    t.insert(pt(1.0, 1.0));
    t.insert(pt(0.0, 0.0));
    for _ in 0..50 {
        t.insert(pt(r.unit(), r.unit()));
    }
    assert_eq!(first_inexact_depth(&t, 0), None);
}

#[test]
fn the_unit_square_rounds_at_the_twenty_fourth_level() {
    let mut t = unit(24);
    t.insert(pt(0.9, 0.9));
    assert_eq!(first_inexact_depth(&t, 0), Some(23));
}

#[test]
fn every_node_on_the_way_of_a_point_holds_it_and_no_other_node_at_its_depth_does() {
    let mut r = Stream(19);
    let mut t = unit(10);
    let points: Vec<(f32, f32)> = (0..40).map(|_| (r.unit(), r.unit())).collect();
    for p in &points {
        t.insert(pt(p.0, p.1));
    }
    fn holds(t: &Octree, p: (f32, f32)) -> bool {
        let (cx, cy) = (center(t).0 as f64, center(t).1 as f64);
        let (w, h) = (shape(t).0 as f64, shape(t).1 as f64);
        let (x, y) = (p.0 as f64, p.1 as f64);
        cx - w / 2.0 <= x && x < cx + w / 2.0 && cy - h / 2.0 <= y && y < cy + h / 2.0
    }
    fn leaves_holding(t: &Octree, p: (f32, f32), depth: usize, out: &mut Vec<usize>) {
        if !holds(t, p) {
            return;
        }
        if is_leaf(t) {
            out.push(depth);
        } else {
            for k in kids(t) {
                leaves_holding(k, p, depth + 1, out);
            }
        }
    }
    for p in &points {
        let mut found = Vec::new();
        leaves_holding(&t, *p, 0, &mut found);
        assert_eq!(found, vec![10]);
    }
}
