use hex_util::{coord, make_coordinate_store, Chunked, Coordinate, Hexagonish, Hexasphere};
use hexasphere::shapes::IcoSphere;
use std::collections::{HashMap, HashSet};

fn ico_indices(n: usize) -> Vec<u32> {
    IcoSphere::new(n, |_| ()).get_all_indices()
}

fn valences(indices: &[u32]) -> HashMap<u32, usize> {
    let mut around: HashMap<u32, HashSet<u32>> = HashMap::new();
    for t in indices.chunks(3) {
        for k in 0..3 {
            let e = around.entry(t[k]).or_default();
            e.insert(t[(k + 1) % 3]);
            e.insert(t[(k + 2) % 3]);
        }
    }
    around.into_iter().map(|(k, v)| (k, v.len())).collect()
}

#[test]
fn adjacency_of_a_fan() {
    // Four triangles around vertex 0.
    let indices = [0, 1, 2, 0, 2, 3, 0, 3, 4, 0, 4, 1];
    let mut store = HashMap::new();
    assert!(make_coordinate_store(&indices, &mut store));
    let ring: Vec<u32> = store[&0].iter().copied().collect();
    assert_eq!(ring, vec![1, 2, 3, 4]);
    let ring1: Vec<u32> = store[&1].iter().copied().collect();
    assert_eq!(ring1, vec![2, 0, 4]);
}

#[test]
fn adjacency_refuses_an_overfull_ring() {
    // Seven triangles around vertex 0 would give it seven neighbours.
    let mut indices = Vec::new();
    for k in 0..7u32 {
        indices.extend_from_slice(&[0, 1 + k, 1 + (k + 1) % 7]);
    }
    let mut store: HashMap<u32, Hexagonish<u32>> = HashMap::new();
    assert!(!make_coordinate_store(&indices, &mut store));
}

#[test]
fn adjacency_rings_match_valences() {
    for n in 0..4usize {
        let indices = ico_indices(n);
        let mut store = HashMap::new();
        assert!(make_coordinate_store(&indices, &mut store));
        let val = valences(&indices);
        assert_eq!(store.len(), val.len());
        for (v, ring) in &store {
            assert_eq!(ring.len(), val[v], "vertex {}", v);
        }
    }
}

#[test]
fn geometry_grid_matches_mesh_adjacency() {
    for n in 0..4usize {
        let indices = ico_indices(n);
        let (sphere, store) =
            Hexasphere::from_hexasphere_geometry(n, &indices, |id, _| id).expect("walk");
        let g = sphere.chunked();
        let all = g.iter_all();
        let ids: HashSet<u32> = all.iter().map(|&c| *sphere.get(c)).collect();
        assert_eq!(ids.len(), all.len());
        let back: HashMap<u32, Coordinate> = all.iter().map(|&c| (*sphere.get(c), c)).collect();
        for &c in &all {
            let id = *sphere.get(c);
            let from_mesh: HashSet<Coordinate> = store[&id].iter().map(|v| back[v]).collect();
            let from_rule: HashSet<Coordinate> = g.surrounding(c).iter().copied().collect();
            assert_eq!(from_mesh, from_rule, "cell {:?} at n = {}", c, n);
        }
    }
}

#[test]
fn walk_needs_a_complete_map() {
    let store: HashMap<u32, Hexagonish<u32>> = HashMap::new();
    assert!(Hexasphere::make_from_surrounding(1, &store, |id, _| id).is_none());
}

#[test]
fn store_get_and_set() {
    let indices = ico_indices(2);
    let (mut sphere, _) =
        Hexasphere::from_hexasphere_geometry(2, &indices, |_, c| c).expect("walk");
    let g = sphere.chunked();
    for c in g.iter_all() {
        assert_eq!(*sphere.get(c), c);
    }
    sphere.set(coord(3, 1, 4), Coordinate::Top);
    assert_eq!(*sphere.get(coord(3, 1, 4)), Coordinate::Top);
    assert_eq!(*sphere.get(coord(3, 1, 5)), coord(3, 1, 5));
    let many = sphere.get_many(&[Coordinate::Bottom, coord(0, 2, 5)]);
    assert_eq!(*many[0], Coordinate::Bottom);
    assert_eq!(*many[1], coord(0, 2, 5));
    let all = sphere.all();
    assert_eq!(all.len(), 10 * 9 + 2);
    assert_eq!(*all[0], Coordinate::Top);
    assert_eq!(*all[1], Coordinate::Bottom);
    assert_eq!(*all[2], coord(0, 0, 0));
}

#[test]
fn change_type_twice_with_identity() {
    let indices = ico_indices(1);
    let (sphere, _) = Hexasphere::from_hexasphere_geometry(1, &indices, |id, _| id).expect("walk");
    let once = sphere.change_type(|x: &u32| *x);
    let twice = once.change_type(|x: &u32| *x);
    for c in sphere.chunked().iter_all() {
        assert_eq!(sphere.get(c), twice.get(c));
    }
    let doubled = sphere.change_type(|x: &u32| *x as u64 * 2);
    assert_eq!(*doubled.get(Coordinate::Bottom), 22);
}

#[test]
fn get_many_mut_needs_distinct_valid_cells() {
    let indices = ico_indices(1);
    let (mut sphere, _) =
        Hexasphere::from_hexasphere_geometry(1, &indices, |id, _| id).expect("walk");
    assert!(sphere.get_many_mut(&[Coordinate::Top, Coordinate::Top]).is_none());
    assert!(sphere.get_many_mut(&[coord(0, 2, 0)]).is_none());
    assert_eq!(*sphere.get(Coordinate::Top), 0);
    assert_eq!(*sphere.get(Coordinate::Bottom), 11);
    {
        let refs = sphere
            .get_many_mut(&[Coordinate::Top, coord(0, 0, 0), Coordinate::Bottom])
            .expect("distinct cells");
        assert_eq!(refs.len(), 3);
        assert_eq!(*refs[0], 0);
        assert_eq!(*refs[2], 11);
        for r in refs {
            *r += 1000;
        }
    }
    assert_eq!(*sphere.get(Coordinate::Top), 1000);
    assert_eq!(*sphere.get(Coordinate::Bottom), 1011);
    assert!(*sphere.get(coord(0, 0, 0)) >= 1000);
    assert!(*sphere.get(coord(1, 0, 0)) < 1000);
    assert_eq!(sphere.get_many_mut(&[]).map(|v| v.len()), Some(0));
}

#[test]
fn all_mut_reaches_every_payload() {
    let indices = ico_indices(1);
    let (mut sphere, _) =
        Hexasphere::from_hexasphere_geometry(1, &indices, |id, _| id).expect("walk");
    let refs = sphere.all_mut();
    assert_eq!(refs.len(), 42);
    for r in refs {
        *r = 7;
    }
    assert!(sphere.all().iter().all(|&&x| x == 7));
}

#[test]
fn chunked_handle() {
    let g = Chunked::new(4);
    assert_eq!(g.subdivisions(), 4);
}

#[test]
fn iter_pairs_neighbours_with_payloads() {
    let indices = ico_indices(2);
    let (sphere, _) = Hexasphere::from_hexasphere_geometry(2, &indices, |_, c| c).expect("walk");
    let pairs = sphere.iter(Coordinate::Top);
    assert_eq!(pairs.len(), 5);
    for (i, (payload, c)) in pairs.iter().enumerate() {
        assert_eq!(*c, coord(i as u8, 0, 0));
        assert_eq!(**payload, *c);
    }
}
