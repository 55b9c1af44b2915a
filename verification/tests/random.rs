use sif_kdtree::{Item, KdTree, Point, WithinDistance};

/// A small deterministic pseudo-random generator, so that the checks run
/// on a spread of inputs without drawing on the environment.
struct Lcg(u64);

impl Lcg {
    fn next(&mut self) -> u64 {
        self.0 = self
            .0
            .wrapping_mul(6364136223846793005)
            .wrapping_add(1442695040888963407);
        self.0 >> 33
    }

    fn coord(&mut self) -> i32 {
        (self.next() % 1000) as i32
    }
}

fn random_objects(gen: &mut Lcg, len: usize) -> Vec<Item> {
    (0..len)
        .map(|i| Item {
            id: i as u64,
            point: Point::new(vec![gen.coord(), gen.coord()]),
        })
        .collect()
}

fn random_queries(gen: &mut Lcg, len: usize) -> Vec<(i32, i32, i32)> {
    (0..len)
        .map(|_| (gen.coord(), gen.coord(), gen.coord()))
        .collect()
}

fn dist2(a: &[i32; 2], b: &[i32; 2]) -> u128 {
    let dx = (a[0] as i64 - b[0] as i64) as i128;
    let dy = (a[1] as i64 - b[1] as i64) as i128;
    (dx * dx + dy * dy) as u128
}

fn coords_of(tree: &KdTree<Item>, i: usize) -> [i32; 2] {
    let p = tree.objects()[i].point.clone();
    [p.coord(0), p.coord(1)]
}

#[test]
fn random_look_up() {
    let mut gen = Lcg(42);
    let objects = random_objects(&mut gen, 100);
    let queries = random_queries(&mut gen, 10);
    let index = KdTree::new(objects);

    for (cx, cy, d) in queries {
        let results1: Vec<usize> = (0..index.len())
            .filter(|&i| dist2(&coords_of(&index, i), &[cx, cy]) <= (d as u128) * (d as u128))
            .collect();

        let results2 = index.look_up(&WithinDistance::new(Point::new(vec![cx, cy]), d));

        assert_eq!(results1, results2);
    }
}

#[test]
fn random_par_look_up() {
    let mut gen = Lcg(43);
    let objects = random_objects(&mut gen, 100);
    let queries = random_queries(&mut gen, 10);
    let index = KdTree::par_new(objects);

    for (cx, cy, d) in queries {
        let results1: Vec<usize> = (0..index.len())
            .filter(|&i| dist2(&coords_of(&index, i), &[cx, cy]) <= (d as u128) * (d as u128))
            .collect();

        let results2 = index.par_look_up(&WithinDistance::new(Point::new(vec![cx, cy]), d));

        assert_eq!(results1, results2);
    }
}

#[test]
fn random_nearest() {
    let mut gen = Lcg(44);
    let objects = random_objects(&mut gen, 100);
    let targets = random_queries(&mut gen, 10);
    let index = KdTree::new(objects);

    for (tx, ty, _) in targets {
        let best = (0..index.len())
            .map(|i| dist2(&coords_of(&index, i), &[tx, ty]))
            .min()
            .unwrap();

        let found = index.nearest(&Point::new(vec![tx, ty])).unwrap();

        assert_eq!(dist2(&coords_of(&index, found), &[tx, ty]), best);
    }
}
