//! The adjacency map of a triangle mesh: each vertex's neighbours in winding order.

use crate::ring::{index_ring, index_ring_insert, index_ring_pair, index_ring_push, index_ring_slice, Hexagonish};
use std::collections::HashMap;
use vstd::prelude::*;

verus! {

broadcast use vstd::std_specs::hash::group_hash_axioms;

/// The first place of `x` in `r`, or `-1` where `r` does not hold it.
pub open spec fn index_of<A>(r: Seq<A>, x: A) -> int {
    if r.contains(x) {
        choose|i: int| 0 <= i < r.len() && r[i] == x && forall|j: int| 0 <= j < i ==> r[j] != x
    } else {
        -1
    }
}

/// The ring `r` of a vertex after the pair `(j, k)` of a triangle around it is recorded.
pub open spec fn ring_add(r: Seq<u32>, j: u32, k: u32) -> Seq<u32> {
    let p = index_of(r, j);
    let q = index_of(r, k);
    if p >= 0 {
        if r[(p + 1) % (r.len() as int)] != k {
            r.insert(p + 1, k)
        } else {
            r
        }
    } else if q >= 0 {
        r.insert(q, j)
    } else {
        r.push(j).push(k)
    }
}

/// The map after vertex `i` records the pair `(j, k)`.
pub open spec fn store_step(m: Map<u32, Seq<u32>>, i: u32, j: u32, k: u32) -> Map<u32, Seq<u32>> {
    if m.contains_key(i) {
        m.insert(i, ring_add(m[i], j, k))
    } else {
        m.insert(i, seq![j, k])
    }
}

/// Whether recording `(j, k)` at `i` keeps the ring within six items.
pub open spec fn step_fits(m: Map<u32, Seq<u32>>, i: u32, j: u32, k: u32) -> bool {
    m.contains_key(i) ==> ring_add(m[i], j, k).len() <= 6
}

/// The map after the triangle `(a, b, c)` is recorded at its three corners.
pub open spec fn store_triangle(m: Map<u32, Seq<u32>>, a: u32, b: u32, c: u32) -> Map<u32, Seq<u32>> {
    store_step(store_step(store_step(m, a, b, c), b, c, a), c, a, b)
}

/// Whether recording the triangle `(a, b, c)` keeps every ring within six items.
pub open spec fn triangle_fits(m: Map<u32, Seq<u32>>, a: u32, b: u32, c: u32) -> bool {
    &&& step_fits(m, a, b, c)
    &&& step_fits(store_step(m, a, b, c), b, c, a)
    &&& step_fits(store_step(store_step(m, a, b, c), b, c, a), c, a, b)
}

/// The map after every triangle of `idx` is recorded, in order.
pub open spec fn store_of(m: Map<u32, Seq<u32>>, idx: Seq<u32>) -> Map<u32, Seq<u32>>
    decreases idx.len(),
{
    if idx.len() < 3 {
        m
    } else {
        let t = idx.len() - 3;
        store_triangle(store_of(m, idx.subrange(0, t)), idx[t], idx[t + 1], idx[t + 2])
    }
}

/// Whether every ring stays within six items while the triangles of `idx` are recorded.
pub open spec fn store_fits(m: Map<u32, Seq<u32>>, idx: Seq<u32>) -> bool
    decreases idx.len(),
{
    if idx.len() < 3 {
        true
    } else {
        let t = idx.len() - 3;
        store_fits(m, idx.subrange(0, t)) && triangle_fits(
            store_of(m, idx.subrange(0, t)),
            idx[t],
            idx[t + 1],
            idx[t + 2],
        )
    }
}

/// The rings of an adjacency map as sequences.
pub open spec fn rings(m: Map<u32, Hexagonish<u32>>) -> Map<u32, Seq<u32>> {
    m.map_values(|r: Hexagonish<u32>| index_ring(r))
}

/// The first place of `x` in `r`, if any.
pub(crate) fn position(r: &[u32], x: u32) -> (p: Option<usize>)
    ensures
        match p {
            Some(i) => i == index_of(r@, x),
            None => index_of(r@, x) == -1,
        },
{
    let mut i: usize = 0;
    while i < r.len()
        invariant
            0 <= i <= r@.len(),
            forall|j: int| 0 <= j < i ==> r@[j] != x,
        decreases r@.len() - i,
    {
        if r[i] == x {
            proof {
                let c = choose|c: int| 0 <= c < r@.len() && r@[c] == x && forall|j: int| 0 <= j < c ==> r@[j] != x;
                assert(r@.contains(x));
                if c < i {
                } else if c > i {
                }
            }
            return Some(i);
        }
        i = i + 1;
    }
    None
}

/// Records the pair `(j, k)` at vertex `i`; false where the ring would outgrow six items.
fn store_entry(coordinate_store: &mut HashMap<u32, Hexagonish<u32>>, i: u32, j: u32, k: u32) -> (ok: bool)
    ensures
        ok == step_fits(rings(old(coordinate_store)@), i, j, k),
        ok ==> rings(final(coordinate_store)@) == store_step(rings(old(coordinate_store)@), i, j, k),
{
    let ghost m0 = rings(coordinate_store@);
    match coordinate_store.remove(&i) {
        None => {
            coordinate_store.insert(i, index_ring_pair(j, k));
            proof {
                assert(rings(coordinate_store@) =~= store_step(m0, i, j, k));
            }
            true
        },
        Some(mut list) => {
            let (len, pj, pk) = {
                let sl = index_ring_slice(&list);
                (sl.len(), position(sl, j), position(sl, k))
            };
            let ghost r = index_ring(list);
            assert(m0[i] == r);
            let ok = match pj {
                Some(idx_j) => {
                    let at = {
                        let sl = index_ring_slice(&list);
                        sl[(idx_j + 1) % len]
                    };
                    if at != k {
                        if len < 6 {
                            index_ring_insert(&mut list, idx_j + 1, k);
                            true
                        } else {
                            false
                        }
                    } else {
                        true
                    }
                },
                None => match pk {
                    Some(idx_k) => {
                        if len < 6 {
                            index_ring_insert(&mut list, idx_k, j);
                            true
                        } else {
                            false
                        }
                    },
                    None => {
                        if len < 5 {
                            index_ring_push(&mut list, j);
                            index_ring_push(&mut list, k);
                            true
                        } else {
                            false
                        }
                    },
                },
            };
            coordinate_store.insert(i, list);
            proof {
                if ok {
                    assert(rings(coordinate_store@) =~= store_step(m0, i, j, k));
                }
            }
            ok
        },
    }
}

/// Creates an adjacency map in place from the triangles of `indices`: each
/// vertex gets the ring of its neighbours in winding order. Returns false,
/// and stops, where a ring would outgrow six items.
pub fn make_coordinate_store(indices: &[u32], coordinate_store: &mut HashMap<u32, Hexagonish<u32>>) -> (ok: bool)
    requires
        indices@.len() % 3 == 0,
    ensures
        ok == store_fits(rings(old(coordinate_store)@), indices@),
        ok ==> rings(final(coordinate_store)@) == store_of(rings(old(coordinate_store)@), indices@),
{
    let ghost m0 = rings(coordinate_store@);
    let mut t: usize = 0;
    while t < indices.len()
        invariant
            t % 3 == 0,
            0 <= t <= indices@.len(),
            indices@.len() % 3 == 0,
            m0 == rings(old(coordinate_store)@),
            store_fits(m0, indices@.subrange(0, t as int)),
            rings(coordinate_store@) == store_of(m0, indices@.subrange(0, t as int)),
        decreases indices@.len() - t,
    {
        let a = indices[t];
        let b = indices[t + 1];
        let c = indices[t + 2];
        let ghost before = rings(coordinate_store@);
        let ghost next = indices@.subrange(0, t + 3);
        proof {
            assert(next.subrange(0, t as int) =~= indices@.subrange(0, t as int));
            assert(next[t as int] == a && next[t + 1] == b && next[t + 2] == c);
        }
        let ok1 = store_entry(coordinate_store, a, b, c);
        let ghost mid1 = rings(coordinate_store@);
        let ok2 = ok1 && store_entry(coordinate_store, b, c, a);
        let ghost mid2 = rings(coordinate_store@);
        let ok3 = if ok2 {
            store_entry(coordinate_store, c, a, b)
        } else {
            false
        };
        assert(ok2 ==> (ok3 == step_fits(mid2, c, a, b)));
        if !ok3 {
            proof {
                if store_fits(m0, indices@) {
                    lemma_fits_prefix(m0, indices@, t as int + 3);
                    assert(store_fits(m0, next));
                    assert(triangle_fits(before, a, b, c));
                    assert(step_fits(before, a, b, c));
                    assert(ok1);
                    assert(mid1 == store_step(before, a, b, c));
                    assert(ok2);
                    assert(mid2 == store_step(mid1, b, c, a));
                    assert(step_fits(mid2, c, a, b));
                }
            }
            return false;
        }
        t = t + 3;
    }
    proof {
        assert(indices@.subrange(0, indices@.len() as int) =~= indices@);
    }
    true
}

/// Where the rings fit for all triangles, they fit for every prefix of them.
proof fn lemma_fits_prefix(m: Map<u32, Seq<u32>>, idx: Seq<u32>, k: int)
    requires
        idx.len() % 3 == 0,
        0 <= k <= idx.len(),
        k % 3 == 0,
        store_fits(m, idx),
    ensures
        store_fits(m, idx.subrange(0, k)),
    decreases idx.len(),
{
    if k < idx.len() {
        let t = idx.len() - 3;
        let shorter = idx.subrange(0, t);
        lemma_fits_prefix(m, shorter, k);
        assert(shorter.subrange(0, k) =~= idx.subrange(0, k));
    } else {
        assert(idx.subrange(0, k) =~= idx);
    }
}

} // verus!
