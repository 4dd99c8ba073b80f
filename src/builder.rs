//! Assigning the vertices of an icosphere mesh to the cells of the tiling.

use crate::adjacency::{index_of, make_coordinate_store, position, rings, store_fits, store_of};
use crate::coordinate::{cell, coord, fits, lemma_fits_bound, valid_coord, Chunked, Coordinate};
use crate::ring::{index_ring_slice, Hexagonish};
use crate::sphere::{pick, slot, Hexasphere};
use std::collections::HashMap;
use vstd::prelude::*;

verus! {

broadcast use vstd::std_specs::hash::group_hash_axioms;

/// The neighbour of `this` that lies `k` places before `previous` in the ring
/// of `this`, wrapping around; `None` where `this` has no ring or `previous`
/// is not in it.
pub open spec fn rotate_back(m: Map<u32, Seq<u32>>, previous: u32, this: u32, k: int) -> Option<u32> {
    if m.contains_key(this) && index_of(m[this], previous) >= 0 {
        let r = m[this];
        Some(r[(index_of(r, previous) + 3 * r.len() - k) % (r.len() as int)])
    } else {
        None
    }
}

/// `rotate_back` on values that may be missing.
pub open spec fn rotate_opt(m: Map<u32, Seq<u32>>, previous: Option<u32>, this: Option<u32>, k: int) -> Option<u32> {
    match (previous, this) {
        (Some(p), Some(t)) => rotate_back(m, p, t, k),
        _ => None,
    }
}

/// The vertex at `(c, s, 0)`: the `c`-th neighbour of vertex 0 for `s = 0`,
/// then each row start three places before the previous row start.
pub open spec fn row_root(m: Map<u32, Seq<u32>>, c: int, s: int) -> Option<u32>
    decreases s,
{
    if s <= 0 {
        if m.contains_key(0) && 0 <= c < m[0].len() {
            Some(m[0][c])
        } else {
            None
        }
    } else {
        rotate_opt(m, row_before(m, c, s - 1), row_root(m, c, s - 1), 3)
    }
}

/// The vertex that precedes the row start `(c, s, 0)`: vertex 0 for the first row.
pub open spec fn row_before(m: Map<u32, Seq<u32>>, c: int, s: int) -> Option<u32>
    decreases s,
{
    if s <= 0 {
        Some(0)
    } else {
        row_root(m, c, s - 1)
    }
}

/// The vertex assigned to `(c, s, l)`: the first step along a row goes two
/// places back, each later step three places back.
pub open spec fn cell_vertex(m: Map<u32, Seq<u32>>, c: int, s: int, l: int) -> Option<u32>
    decreases l,
{
    if l <= 0 {
        row_root(m, c, s)
    } else if l == 1 {
        rotate_opt(m, row_before(m, c, s), row_root(m, c, s), 2)
    } else {
        rotate_opt(m, cell_vertex(m, c, s, l - 2), cell_vertex(m, c, s, l - 1), 3)
    }
}

/// The vertex assigned to cell `x`: 0 for `Top`, 11 for `Bottom`.
pub open spec fn vertex_of(m: Map<u32, Seq<u32>>, x: Coordinate) -> Option<u32> {
    match x {
        Coordinate::Top => Some(0),
        Coordinate::Bottom => Some(11),
        Coordinate::Inside { chunk, short, long } => cell_vertex(m, chunk as int, short as int, long as int),
    }
}

/// The walk reaches every cell of a tiling with `n` subdivisions.
pub open spec fn walk_complete(m: Map<u32, Seq<u32>>, n: int) -> bool {
    forall|x: Coordinate| valid_coord(n, x) ==> (#[trigger] vertex_of(m, x)) is Some
}

/// The neighbour `k` places before `previous` in the ring of `this`.
fn rotate_by(store: &HashMap<u32, Hexagonish<u32>>, previous: u32, this: u32, k: usize) -> (r: Option<u32>)
    requires
        k <= 3,
    ensures
        r == rotate_back(rings(store@), previous, this, k as int),
{
    match store.get(&this) {
        None => None,
        Some(list) => {
            let sl = index_ring_slice(list);
            match position(sl, previous) {
                None => None,
                Some(idx) => {
                    let len = sl.len();
                    Some(sl[(idx + 3 * len - k) % len])
                },
            }
        },
    }
}

/// Whether `data` lists the vertices of chunk `c` row by row, `row` to a row.
pub open spec fn rows_match(m: Map<u32, Seq<u32>>, c: int, row: int, data: Seq<u32>) -> bool {
    forall|k: int| 0 <= k < data.len() ==> cell_vertex(m, c, k / row, k % row) == Some(#[trigger] data[k])
}

proof fn lemma_rows_push(m: Map<u32, Seq<u32>>, c: int, row: int, data: Seq<u32>, s: int, l: int, v: u32)
    requires
        row > 0,
        0 <= s,
        0 <= l < row,
        data.len() == s * row + l,
        rows_match(m, c, row, data),
        cell_vertex(m, c, s, l) == Some(v),
    ensures
        rows_match(m, c, row, data.push(v)),
{
    vstd::arithmetic::div_mod::lemma_fundamental_div_mod_converse(s * row + l, row, s, l);
    let d = data.push(v);
    assert forall|k: int| 0 <= k < d.len() implies cell_vertex(m, c, k / row, k % row) == Some(#[trigger] d[k]) by {
        if k < data.len() {
            assert(d[k] == data[k]);
        }
    }
}

/// The vertices of chunk `c`, row by row, or `None` where the walk cannot
/// reach one of them.
fn layout_chunk(store: &HashMap<u32, Hexagonish<u32>>, n: usize, c: u8) -> (r: Option<Vec<u32>>)
    requires
        n * 10 + 12 <= usize::MAX,
        2 * (n + 1) * (n + 1) <= usize::MAX,
    ensures
        match r {
            Some(v) => {
                &&& v@.len() == 2 * (n + 1) * (n + 1)
                &&& rows_match(rings(store@), c as int, 2 * (n + 1), v@)
            },
            None => exists|s: int, l: int|
                0 <= s <= n && 0 <= l <= 2 * n + 1 && #[trigger] cell_vertex(rings(store@), c as int, s, l) is None,
        },
{
    let ghost m = rings(store@);
    let row: usize = 2 * (n + 1);
    let mut data: Vec<u32> = Vec::new();
    let mut short_prev: u32 = 0;
    let mut short_root: u32 = match store.get(&0) {
        None => {
            assert(cell_vertex(m, c as int, 0, 0) is None);
            return None;
        },
        Some(list) => {
            let sl = index_ring_slice(list);
            if (c as usize) < sl.len() {
                sl[c as usize]
            } else {
                assert(cell_vertex(m, c as int, 0, 0) is None);
                return None;
            }
        },
    };
    let mut s: usize = 0;
    while s <= n
        invariant
            0 <= s <= n + 1,
            n * 10 + 12 <= usize::MAX,
            row == 2 * (n + 1),
            m == rings(store@),
            data@.len() == s * row,
            rows_match(m, c as int, row as int, data@),
            s <= n ==> row_root(m, c as int, s as int) == Some(short_root),
            s <= n ==> row_before(m, c as int, s as int) == Some(short_prev),
        decreases n + 1 - s,
    {
        proof {
            lemma_rows_push(m, c as int, row as int, data@, s as int, 0, short_root);
        }
        data.push(short_root);
        let mut long_prev: u32 = short_root;
        let mut long_root: u32 = match rotate_by(store, short_prev, short_root, 2) {
            None => {
                assert(cell_vertex(m, c as int, s as int, 1) is None);
                return None;
            },
            Some(v) => v,
        };
        let mut l: usize = 1;
        while l < row
            invariant
                0 <= s <= n,
                1 <= l <= row,
                n * 10 + 12 <= usize::MAX,
                row == 2 * (n + 1),
                m == rings(store@),
                data@.len() == s * row + l,
                rows_match(m, c as int, row as int, data@),
                row_root(m, c as int, s as int) == Some(short_root),
                row_before(m, c as int, s as int) == Some(short_prev),
                l < row ==> cell_vertex(m, c as int, s as int, l as int) == Some(long_root),
                l < row ==> cell_vertex(m, c as int, s as int, l as int - 1) == Some(long_prev),
            decreases row - l,
        {
            proof {
                lemma_rows_push(m, c as int, row as int, data@, s as int, l as int, long_root);
            }
            data.push(long_root);
            if l + 1 < row {
                let new_long_root = match rotate_by(store, long_prev, long_root, 3) {
                    None => {
                        assert(cell_vertex(m, c as int, s as int, l as int + 1) is None);
                        return None;
                    },
                    Some(v) => v,
                };
                long_prev = long_root;
                long_root = new_long_root;
            }
            l = l + 1;
        }
        proof {
            assert(s * row + row == (s + 1) * row) by (nonlinear_arith);
        }
        if s < n {
            let new_short_root = match rotate_by(store, short_prev, short_root, 3) {
                None => {
                    assert(cell_vertex(m, c as int, s as int + 1, 0) is None);
                    return None;
                },
                Some(v) => v,
            };
            short_prev = short_root;
            short_root = new_short_root;
        }
        s = s + 1;
    }
    proof {
        assert((n + 1) * row == 2 * (n + 1) * (n + 1)) by (nonlinear_arith)
            requires
                row == 2 * (n + 1),
        ;
    }
    Some(data)
}

/// The payloads of chunk `c`: `make` applied to each vertex of `ids` and the
/// cell that it stands for.
fn fill_chunk<T>(ids: &Vec<u32>, n: usize, c: u8, make: &impl Fn(u32, Coordinate) -> T) -> (r: Vec<T>)
    requires
        n * 10 + 12 <= usize::MAX,
        ids@.len() == 2 * (n + 1) * (n + 1),
        forall|id: u32, x: Coordinate| make.requires((id, x)),
    ensures
        r@.len() == ids@.len(),
        forall|k: int|
            0 <= k < r@.len() ==> make.ensures(
                (ids@[k], cell(c as int, k / (2 * (n + 1)), k % (2 * (n + 1)))),
                #[trigger] r@[k],
            ),
{
    let row: usize = 2 * (n + 1);
    let mut out: Vec<T> = Vec::new();
    let mut k: usize = 0;
    while k < ids.len()
        invariant
            0 <= k <= ids@.len(),
            row == 2 * (n + 1),
            out@.len() == k,
            forall|id: u32, x: Coordinate| make.requires((id, x)),
            forall|j: int|
                0 <= j < k ==> make.ensures((ids@[j], cell(c as int, j / (row as int), j % (row as int))), #[trigger] out@[j]),
        decreases ids@.len() - k,
    {
        let x = coord(c, k / row, k % row);
        let v = make(ids[k], x);
        out.push(v);
        k = k + 1;
    }
    out
}

/// Reads the payload of every valid inside cell off the row-by-row layouts.
#[verifier::spinoff_prover]
#[verifier::rlimit(60)]
proof fn lemma_cell_from_rows<T>(
    h: Hexasphere<T>,
    n: int,
    m: Map<u32, Seq<u32>>,
    make: impl Fn(u32, Coordinate) -> T,
    ids: Seq<Seq<u32>>,
    vals: Seq<Seq<T>>,
    x: Coordinate,
)
    requires
        0 <= n,
        ids.len() == 5,
        vals.len() == 5,
        valid_coord(n, x),
        x is Inside,
        h.at(x) == pick(x->chunk as int, vals[0], vals[1], vals[2], vals[3], vals[4])[slot(n, x->short as int, x->long as int)],
        forall|c: int| 0 <= c < 5 ==> rows_match(m, c, 2 * (n + 1), #[trigger] ids[c]),
        forall|c: int| 0 <= c < 5 ==> (#[trigger] ids[c]).len() == 2 * (n + 1) * (n + 1),
        forall|c: int| 0 <= c < 5 ==> (#[trigger] vals[c]).len() == ids[c].len(),
        forall|c: int, k: int|
            0 <= c < 5 && 0 <= k < vals[c].len() ==> make.ensures(
                (ids[c][k], cell(c, k / (2 * (n + 1)), k % (2 * (n + 1)))),
                #[trigger] vals[c][k],
            ),
    ensures
        vertex_of(m, x) is Some,
        make.ensures((vertex_of(m, x)->0, x), h.at(x)),
{
    let c = x->chunk as int;
    let s = x->short as int;
    let l = x->long as int;
    let row = 2 * (n + 1);
    let k = slot(n, s, l);
    crate::sphere::lemma_slot_in_chunk(n, s, l);
    vstd::arithmetic::div_mod::lemma_fundamental_div_mod_converse(k, row, s, l);
    assert(pick(c, vals[0], vals[1], vals[2], vals[3], vals[4]) == vals[c]);
    assert(ids[c].len() == 2 * (n + 1) * (n + 1));
    assert(vals[c][k] == h.at(x));
    assert(rows_match(m, c, row, ids[c]));
    assert(cell_vertex(m, c, k / row, k % row) == Some(ids[c][k]));
    assert(cell(c, s, l) == x);
}

impl<T> Hexasphere<T> {
    /// Creates the store from an adjacency map: vertex 0 is `Top`, vertex 11
    /// is `Bottom`, and each chunk is walked row by row from the neighbours of
    /// vertex 0. `make` gives the payload of each cell from its vertex id and
    /// its coordinate. `None` where the walk leaves the map.
    pub fn make_from_surrounding(
        subdivisions: usize,
        coordinate_store: &HashMap<u32, Hexagonish<u32>>,
        make: impl Fn(u32, Coordinate) -> T,
    ) -> (r: Option<Self>)
        requires
            fits(subdivisions as int),
            forall|id: u32, x: Coordinate| make.requires((id, x)),
        ensures
            r is Some <==> walk_complete(rings(coordinate_store@), subdivisions as int),
            match r {
                Some(h) => {
                    &&& h.wf()
                    &&& h.n() == subdivisions
                    &&& forall|x: Coordinate|
                        valid_coord(subdivisions as int, x) ==> make.ensures(
                            (vertex_of(rings(coordinate_store@), x)->0, x),
                            #[trigger] h.at(x),
                        )
                },
                None => true,
            },
    {
        let ghost m = rings(coordinate_store@);
        let n = subdivisions;
        proof {
            lemma_fits_bound(n as int);
        }
        let top = make(0, Coordinate::Top);
        let bottom = make(11, Coordinate::Bottom);
        let ids0 = match layout_chunk(coordinate_store, n, 0) { Some(v) => v, None => { proof { lemma_walk_gap(m, n as int, 0); } return None; } };
        let ids1 = match layout_chunk(coordinate_store, n, 1) { Some(v) => v, None => { proof { lemma_walk_gap(m, n as int, 1); } return None; } };
        let ids2 = match layout_chunk(coordinate_store, n, 2) { Some(v) => v, None => { proof { lemma_walk_gap(m, n as int, 2); } return None; } };
        let ids3 = match layout_chunk(coordinate_store, n, 3) { Some(v) => v, None => { proof { lemma_walk_gap(m, n as int, 3); } return None; } };
        let ids4 = match layout_chunk(coordinate_store, n, 4) { Some(v) => v, None => { proof { lemma_walk_gap(m, n as int, 4); } return None; } };
        let v0 = fill_chunk(&ids0, n, 0, &make);
        let v1 = fill_chunk(&ids1, n, 1, &make);
        let v2 = fill_chunk(&ids2, n, 2, &make);
        let v3 = fill_chunk(&ids3, n, 3, &make);
        let v4 = fill_chunk(&ids4, n, 4, &make);
        let ghost ids = seq![ids0@, ids1@, ids2@, ids3@, ids4@];
        let ghost vals = seq![v0@, v1@, v2@, v3@, v4@];
        let h = Hexasphere::from_parts(Chunked::new(n), top, bottom, v0, v1, v2, v3, v4);
        proof {
            assert forall|x: Coordinate| valid_coord(n as int, x) implies make.ensures(
                (vertex_of(m, x)->0, x),
                #[trigger] h.at(x),
            ) && vertex_of(m, x) is Some by {
                if x is Inside {
                    lemma_cell_from_rows(h, n as int, m, make, ids, vals, x);
                }
            }
            assert forall|x: Coordinate| valid_coord(n as int, x) implies (#[trigger] vertex_of(m, x)) is Some by {
                if x is Inside {
                    lemma_cell_from_rows(h, n as int, m, make, ids, vals, x);
                }
            }
        }
        Some(h)
    }

    /// Builds the adjacency map of an icosphere's triangles (see
    /// `make_coordinate_store`) and the store over it (see
    /// `make_from_surrounding`). Returns both, or `None` where a ring would
    /// outgrow six items or the walk leaves the map.
    pub fn from_hexasphere_geometry(
        subdivisions: usize,
        indices: &[u32],
        make: impl Fn(u32, Coordinate) -> T,
    ) -> (r: Option<(Self, HashMap<u32, Hexagonish<u32>>)>)
        requires
            fits(subdivisions as int),
            indices@.len() % 3 == 0,
            forall|id: u32, x: Coordinate| make.requires((id, x)),
        ensures
            r is Some <==> (store_fits(Map::empty(), indices@) && walk_complete(
                store_of(Map::empty(), indices@),
                subdivisions as int,
            )),
            match r {
                Some((h, store)) => {
                    &&& rings(store@) == store_of(Map::empty(), indices@)
                    &&& h.wf()
                    &&& h.n() == subdivisions
                    &&& forall|x: Coordinate|
                        valid_coord(subdivisions as int, x) ==> make.ensures(
                            (vertex_of(rings(store@), x)->0, x),
                            #[trigger] h.at(x),
                        )
                },
                None => true,
            },
    {
        let mut coordinate_store: HashMap<u32, Hexagonish<u32>> = HashMap::new();
        proof {
            assert(rings(coordinate_store@) =~= Map::empty());
        }
        if !make_coordinate_store(indices, &mut coordinate_store) {
            return None;
        }
        match Self::make_from_surrounding(subdivisions, &coordinate_store, make) {
            Some(h) => Some((h, coordinate_store)),
            None => None,
        }
    }
}

/// A chunk that the walk cannot finish leaves a valid cell without a vertex.
proof fn lemma_walk_gap(m: Map<u32, Seq<u32>>, n: int, c: int)
    requires
        0 <= c < 5,
        exists|s: int, l: int| 0 <= s <= n && 0 <= l <= 2 * n + 1 && #[trigger] cell_vertex(m, c, s, l) is None,
        n * 10 + 12 <= usize::MAX,
    ensures
        !walk_complete(m, n),
{
    let (s, l) = choose|s: int, l: int| 0 <= s <= n && 0 <= l <= 2 * n + 1 && #[trigger] cell_vertex(m, c, s, l) is None;
    let x = cell(c, s, l);
    assert(valid_coord(n, x));
    assert(vertex_of(m, x) is None);
}

} // verus!
