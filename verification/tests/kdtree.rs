use sif_kdtree::{Distance, Item, KdTree, Object, Point, WithinBoundingBox, WithinDistance};

fn item(id: u64, coords: Vec<i32>) -> Item {
    Item {
        id,
        point: Point::new(coords),
    }
}

/// The thirteen two-dimensional items used by the fixed scenarios, on a
/// grid ten times finer than unit spacing.
fn scenario_items() -> Vec<Item> {
    let coords: [[i32; 2]; 13] = [
        [-4, -33],
        [-45, -18],
        [7, 20],
        [17, 15],
        [-13, 23],
        [22, 10],
        [-37, 38],
        [-32, -1],
        [14, 27],
        [31, 0],
        [43, 8],
        [39, -33],
        [4, -32],
    ];
    coords
        .iter()
        .enumerate()
        .map(|(i, c)| item(i as u64, vec![c[0], c[1]]))
        .collect()
}

fn ids_of(tree: &KdTree<Item>, indices: &[usize]) -> Vec<u64> {
    let mut ids: Vec<u64> = indices.iter().map(|&i| tree.objects()[i].id).collect();
    ids.sort_unstable();
    ids
}

#[test]
fn scenario_within_distance() {
    let index = KdTree::new(scenario_items());
    let found = index.look_up(&WithinDistance::new(Point::new(vec![0, 0]), 30));
    assert_eq!(ids_of(&index, &found), vec![2, 3, 4, 5]);
}

#[test]
fn scenario_nearest() {
    let index = KdTree::new(scenario_items());
    let nearest = index.nearest(&Point::new(vec![0, 0])).unwrap();
    assert_eq!(index.objects()[nearest].id, 2);
}

#[test]
fn scenario_within_bounding_box() {
    let index = KdTree::new(scenario_items());
    let query = WithinBoundingBox::new(Point::new(vec![0, 0]), Point::new(vec![50, 50]));
    let found = index.look_up(&query);
    assert_eq!(ids_of(&index, &found), vec![2, 3, 5, 8, 9, 10]);
}

#[test]
fn multiset_preserved_by_build() {
    let index = KdTree::new(scenario_items());
    let mut ids: Vec<u64> = index.objects().iter().map(|o| o.id).collect();
    ids.sort_unstable();
    assert_eq!(ids, (0..13).collect::<Vec<u64>>());
    assert_eq!(index.len(), 13);
}

#[test]
fn kd_layout_axis_ordering() {
    // The root splits on the first axis: everything before the midpoint
    // has a first coordinate at most equal to it, everything after at
    // least equal.
    let index = KdTree::new(scenario_items());
    let objects = index.objects();
    let mid = objects.len() / 2;
    let split = objects[mid].position().coord(0);
    for i in 0..mid {
        assert!(objects[i].position().coord(0) <= split);
    }
    for i in mid + 1..objects.len() {
        assert!(objects[i].position().coord(0) >= split);
    }
}

#[test]
fn empty_index_finds_nothing() {
    let index: KdTree<Item> = KdTree::new(Vec::new());
    let found = index.look_up(&WithinDistance::new(Point::new(vec![0, 0]), 100));
    assert!(found.is_empty());
    assert!(index.nearest(&Point::new(vec![0, 0])).is_none());
}

#[test]
fn single_object_index() {
    let index = KdTree::new(vec![item(7, vec![5, -3, 2])]);
    let nearest = index.nearest(&Point::new(vec![0, 0, 0])).unwrap();
    assert_eq!(index.objects()[nearest].id, 7);
    let found = index.look_up(&WithinDistance::new(Point::new(vec![5, -3, 0]), 2));
    assert_eq!(ids_of(&index, &found), vec![7]);
    let missed = index.look_up(&WithinDistance::new(Point::new(vec![5, -3, 0]), 1));
    assert!(missed.is_empty());
}

#[test]
fn duplicate_coordinates() {
    let objects = vec![
        item(0, vec![1, 1]),
        item(1, vec![1, 1]),
        item(2, vec![1, 1]),
        item(3, vec![9, 9]),
    ];
    let index = KdTree::new(objects);
    let found = index.look_up(&WithinDistance::new(Point::new(vec![1, 1]), 0));
    assert_eq!(ids_of(&index, &found), vec![0, 1, 2]);
    let nearest = index.nearest(&Point::new(vec![2, 2])).unwrap();
    assert!(index.objects()[nearest].id <= 2);
}

#[test]
fn new_unchecked_trusts_layout() {
    // A sequence already in k-d order may be wrapped without a rebuild.
    let objects = vec![item(0, vec![-5]), item(1, vec![0]), item(2, vec![5])];
    let index = KdTree::new_unchecked(objects);
    let found = index.look_up(&WithinDistance::new(Point::new(vec![1]), 4));
    assert_eq!(ids_of(&index, &found), vec![1, 2]);
    let nearest = index.nearest(&Point::new(vec![4])).unwrap();
    assert_eq!(index.objects()[nearest].id, 2);
}

#[test]
fn distance_2_is_sum_of_squares() {
    let p = Point::new(vec![3, 4]);
    let q = Point::new(vec![0, 0]);
    assert_eq!(p.distance_2(&q), 25);
    let r = Point::new(vec![-2, 7]);
    assert_eq!(p.distance_2(&r), 25 + 9);
    let far_a = Point::new(vec![i32::MIN]);
    let far_b = Point::new(vec![i32::MAX]);
    let diff = (i32::MAX as i64 - i32::MIN as i64) as u128;
    assert_eq!(far_a.distance_2(&far_b), diff * diff);
}

#[test]
fn par_build_and_look_up_agree_with_sequential() {
    let seq_index = KdTree::new(scenario_items());
    let par_index = KdTree::par_new(scenario_items());

    // Same multiset of objects either way.
    let mut seq_ids: Vec<u64> = seq_index.objects().iter().map(|o| o.id).collect();
    let mut par_ids: Vec<u64> = par_index.objects().iter().map(|o| o.id).collect();
    seq_ids.sort_unstable();
    par_ids.sort_unstable();
    assert_eq!(seq_ids, par_ids);

    // The parallel query reports exactly what the sequential one reports.
    let query = WithinDistance::new(Point::new(vec![0, 0]), 30);
    assert_eq!(par_index.par_look_up(&query), par_index.look_up(&query));
    assert_eq!(ids_of(&par_index, &par_index.par_look_up(&query)), vec![2, 3, 4, 5]);

    let nearest = par_index.nearest(&Point::new(vec![0, 0])).unwrap();
    assert_eq!(par_index.objects()[nearest].id, 2);
}
