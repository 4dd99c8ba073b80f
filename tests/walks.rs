use hex_util::{coord, dual_topology, make_coordinate_store, trio, Chunked, Coordinate, PointSource};
use hexasphere::shapes::IcoSphere;
use std::collections::{HashMap, HashSet};

#[test]
fn line_goes_straight_across_hexagons() {
    let g = Chunked::new(3);
    let mut line = g.continue_line(coord(2, 1, 2), coord(2, 1, 3), |_, _, (a, _)| a);
    assert_eq!(line.next(), Some(coord(2, 1, 4)));
    assert_eq!(line.next(), Some(coord(2, 1, 5)));
}

#[test]
fn line_at_a_pentagon_asks_the_chooser() {
    let g = Chunked::new(3);
    // Top is a pentagon: from I(0,0,0) the two ways on differ.
    let mut line = g.continue_line(coord(0, 0, 0), Coordinate::Top, |_, _, (_, b)| b);
    let next = line.next().unwrap();
    assert!(next == coord(3, 0, 0) || next == coord(2, 0, 0));
    assert_eq!(next, coord(2, 0, 0));
}

#[test]
fn blobs_partition_the_cells() {
    let g = Chunked::new(3);
    let mut cells: Vec<Coordinate> = g.surrounding(coord(2, 1, 3)).iter().copied().collect();
    cells.push(coord(2, 1, 3));
    cells.push(Coordinate::Bottom);
    cells.push(coord(2, 1, 3));
    let blobs = g.find_blobs(&cells).unwrap();
    assert_eq!(blobs.len(), 2);
    let mut union = HashSet::new();
    for b in &blobs {
        for c in &b.contents {
            assert!(union.insert(*c));
        }
    }
    let input: HashSet<Coordinate> = cells.iter().copied().collect();
    assert_eq!(union, input);
    let big = blobs.iter().find(|b| b.contents.len() == 7).unwrap();
    assert_eq!(big.borders.len(), 6);
    assert!(!big.borders.contains(&coord(2, 1, 3)));
    let small = blobs.iter().find(|b| b.contents.len() == 1).unwrap();
    assert_eq!(small.borders, vec![Coordinate::Bottom]);
}

#[test]
fn blob_borders_of_a_disc() {
    let g = Chunked::new(3);
    let mut cells: Vec<Coordinate> = g.surrounding(coord(2, 1, 3)).iter().copied().collect();
    cells.push(coord(2, 1, 3));
    let blobs = g.find_blobs(&cells).unwrap();
    let rings = g.blob_borders(&blobs[0]).unwrap();
    assert_eq!(rings.len(), 1);
    assert_eq!(rings[0].len(), 6);
}

#[test]
fn ring_order_walks_around_the_centre() {
    let g = Chunked::new(3);
    let centre = coord(2, 1, 3);
    let ring: Vec<Coordinate> = g.surrounding(centre).iter().copied().collect();
    let mut shuffled = vec![ring[0], ring[3], ring[1], ring[5], ring[2], ring[4]];
    assert!(g.ring_order(&mut shuffled, &vec![centre]));
    let l = shuffled.len();
    for i in 0..l {
        let a = shuffled[i];
        let b = shuffled[(i + 1) % l];
        assert!(g.surrounding(a).iter().any(|&x| x == b));
    }
    let set: HashSet<Coordinate> = shuffled.iter().copied().collect();
    assert_eq!(set, ring.iter().copied().collect());
}

#[test]
fn ring_order_refuses_an_open_chain() {
    let g = Chunked::new(3);
    let mut chain = vec![coord(2, 1, 2), coord(2, 1, 3), coord(2, 1, 4)];
    let before = chain.clone();
    assert!(!g.ring_order(&mut chain, &vec![]));
    assert_eq!(chain, before);
}

#[test]
fn trio_sorts() {
    assert_eq!(trio(5, 1, 3), (1, 3, 5));
    assert_eq!(trio(2, 2, 1), (1, 2, 2));
    assert_eq!(trio(0, 9, 4), (0, 4, 9));
}

#[test]
fn dual_of_the_icosahedron() {
    let indices = IcoSphere::new(0, |_| ()).get_all_indices();
    let mut store = HashMap::new();
    assert!(make_coordinate_store(&indices, &mut store));
    let order: Vec<u32> = (0..12).collect();
    let d = dual_topology(&order, &store).unwrap();
    assert_eq!(d.cells.len(), 12);
    assert_eq!(d.sources.len(), 12 + 20);
    assert!(d.cells.iter().all(|c| c.corners.len() == 5));
    assert_eq!(d.indices.len(), 12 * 5 * 3);
    let centres = d.sources.iter().filter(|s| matches!(s, PointSource::Center(_))).count();
    assert_eq!(centres, 12);
}

#[test]
fn dual_point_count_matches_triangles() {
    for n in 1..4usize {
        let sphere = IcoSphere::new(n, |_| ());
        let indices = sphere.get_all_indices();
        let mut store = HashMap::new();
        assert!(make_coordinate_store(&indices, &mut store));
        let order: Vec<u32> = (0..store.len() as u32).collect();
        let d = dual_topology(&order, &store).unwrap();
        assert_eq!(d.sources.len(), store.len() + indices.len() / 3);
    }
}

#[test]
fn dual_needs_every_ring() {
    let store = HashMap::new();
    assert!(dual_topology(&[0], &store).is_none());
}

#[test]
fn dual_takes_large_vertex_ids() {
    let base: u32 = 4_000_000_000;
    let indices: Vec<u32> = IcoSphere::new(0, |_| ())
        .get_all_indices()
        .into_iter()
        .map(|i| i + base)
        .collect();
    let mut store = HashMap::new();
    assert!(make_coordinate_store(&indices, &mut store));
    let order: Vec<u32> = (0..12).map(|i| i + base).collect();
    let d = dual_topology(&order, &store).unwrap();
    assert_eq!(d.cells.len(), 12);
    assert_eq!(d.sources.len(), 32);
    assert!(d.indices.iter().all(|&i| (i as usize) < d.sources.len()));
    assert_eq!(d.cells[3].vertex, base + 3);
}
