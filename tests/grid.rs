use hex_util::{coord, Chunked, Coordinate};
use std::cmp::Ordering;
use std::collections::{HashMap, HashSet, VecDeque};

#[test]
fn coord_surrounding() {
    let hsphere = Chunked::new(3);

    let mut to_visit = vec![Coordinate::Top];
    let mut visited = HashMap::<Coordinate, HashSet<Coordinate>>::new();

    while let Some(x) = to_visit.pop() {
        let surrounding = hsphere.surrounding(x);
        let set = surrounding.iter().copied().collect::<HashSet<_>>();

        visited.insert(x, set);
        surrounding.iter().copied().for_each(|z| {
            if !hsphere.is_valid(z) {
                panic!(
                    "Coordinate {:?} yielded {:?} with bad {:?}.",
                    x, surrounding, z
                );
            }
            if !visited.contains_key(&z) {
                to_visit.push(z);
            }
        })
    }

    for (x, set) in &visited {
        assert!(!set.contains(x));

        set.iter().for_each(|z| {
            assert!(visited.get(z).unwrap().contains(x));
            assert_ne!(z, x);
        });
    }
}

#[test]
fn poles_at_three_subdivisions() {
    let g = Chunked::new(3);
    let top: Vec<Coordinate> = g.surrounding(Coordinate::Top).iter().copied().collect();
    assert_eq!(
        top,
        vec![coord(0, 0, 0), coord(1, 0, 0), coord(2, 0, 0), coord(3, 0, 0), coord(4, 0, 0)]
    );
    let bottom: Vec<Coordinate> = g.surrounding(Coordinate::Bottom).iter().copied().collect();
    assert_eq!(
        bottom,
        vec![coord(4, 3, 7), coord(3, 3, 7), coord(2, 3, 7), coord(1, 3, 7), coord(0, 3, 7)]
    );
}

#[test]
fn interior_cell_has_six_neighbours_in_its_chunk() {
    let g = Chunked::new(3);
    let ring: Vec<Coordinate> = g.surrounding(coord(2, 1, 3)).iter().copied().collect();
    assert_eq!(
        ring,
        vec![
            coord(2, 1, 2),
            coord(2, 2, 2),
            coord(2, 2, 3),
            coord(2, 1, 4),
            coord(2, 0, 4),
            coord(2, 0, 3),
        ]
    );
}

#[test]
fn chunk_seam_bridges_to_previous_chunk() {
    let g = Chunked::new(3);
    let ring: Vec<Coordinate> = g.surrounding(coord(0, 3, 0)).iter().copied().collect();
    assert_eq!(ring.len(), 5);
    for c in [coord(4, 0, 3), coord(4, 0, 4), coord(0, 2, 0), coord(0, 3, 1), coord(0, 2, 1)] {
        assert!(ring.contains(&c), "{:?} missing from {:?}", c, ring);
    }
}

#[test]
fn flood_fill_covers_every_cell() {
    let g = Chunked::new(3);
    let mut seen = HashSet::new();
    let mut queue = VecDeque::new();
    seen.insert(Coordinate::Top);
    queue.push_back(Coordinate::Top);
    while let Some(x) = queue.pop_front() {
        for &y in g.surrounding(x).iter() {
            assert!(g.is_valid(y));
            if seen.insert(y) {
                queue.push_back(y);
            }
        }
    }
    assert_eq!(seen.len(), 10 * 16 + 2);
}

#[test]
fn neighbour_counts_and_reciprocity_for_small_grids() {
    for n in 0..6usize {
        let g = Chunked::new(n);
        let all = g.iter_all();
        let mut pentagons = 0;
        for &x in &all {
            let ring: Vec<Coordinate> = g.surrounding(x).iter().copied().collect();
            assert!(ring.len() == 5 || ring.len() == 6);
            if ring.len() == 5 {
                pentagons += 1;
            }
            for &y in &ring {
                assert_ne!(x, y);
                assert!(g.surrounding(y).iter().any(|&z| z == x), "{:?} -> {:?}", x, y);
            }
        }
        assert_eq!(pentagons, 12);
    }
}

#[test]
fn iter_all_lists_each_cell_once() {
    for n in 0..5usize {
        let g = Chunked::new(n);
        let all = g.iter_all();
        assert_eq!(all.len(), 10 * (n + 1) * (n + 1) + 2);
        let set: HashSet<Coordinate> = all.iter().copied().collect();
        assert_eq!(set.len(), all.len());
        assert_eq!(all[0], Coordinate::Top);
        assert_eq!(all[1], Coordinate::Bottom);
        assert_eq!(all[2], coord(0, 0, 0));
        assert_eq!(*all.last().unwrap(), coord(4, n, 2 * n + 1));
        assert!(all.iter().all(|&c| g.is_valid(c)));
    }
}

#[test]
fn validity_bounds() {
    let g = Chunked::new(2);
    assert_eq!(g.subdivisions(), 2);
    assert!(g.is_valid(coord(4, 2, 5)));
    assert!(!g.is_valid(coord(5, 0, 0)));
    assert!(!g.is_valid(coord(0, 3, 0)));
    assert!(!g.is_valid(coord(0, 0, 6)));
    assert!(g.is_valid(Coordinate::Bottom));
}

#[test]
fn cell_order_puts_poles_first() {
    assert_eq!(Coordinate::Top.cmp(&Coordinate::Bottom), Ordering::Greater);
    assert_eq!(Coordinate::Bottom.cmp(&coord(4, 9, 9)), Ordering::Greater);
    assert_eq!(coord(1, 0, 5).cmp(&coord(1, 1, 0)), Ordering::Less);
    assert_eq!(coord(2, 3, 4).cmp(&coord(2, 3, 4)), Ordering::Equal);
    assert_eq!(coord(3, 0, 0).partial_cmp(&coord(2, 5, 5)), Some(Ordering::Greater));
    assert!(coord(0, 0, 1) < coord(0, 0, 2));
    assert!(Coordinate::Top > coord(0, 0, 0));
}
