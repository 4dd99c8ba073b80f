//! The combinatorial part of the dual mesh: which points it has, which
//! triangles join them, and which points make up each cell.

use crate::adjacency::rings;
use crate::ring::{index_ring_slice, Hexagonish};
use std::collections::HashMap;
use vstd::prelude::*;

verus! {

broadcast use vstd::std_specs::hash::group_hash_axioms;

/// The three ids in increasing order.
pub open spec fn sorted3(a: u32, b: u32, c: u32) -> (u32, u32, u32) {
    if a <= b {
        if b <= c {
            (a, b, c)
        } else if a <= c {
            (a, c, b)
        } else {
            (c, a, b)
        }
    } else {
        if a <= c {
            (b, a, c)
        } else if b <= c {
            (b, c, a)
        } else {
            (c, b, a)
        }
    }
}

/// The unordered triangle of three vertex ids, as its ids in increasing order.
pub fn trio(a: u32, b: u32, c: u32) -> (r: (u32, u32, u32))
    ensures
        r == sorted3(a, b, c),
{
    let (mut a, mut b, mut c) = (a, b, c);
    if a > b {
        let t = a;
        a = b;
        b = t;
    }
    if b > c {
        let t = b;
        b = c;
        c = t;
        if a > b {
            let t = a;
            a = b;
            b = t;
        }
    }
    (a, b, c)
}

/// Where a point of the dual mesh comes from.
#[derive(Copy, Clone, Debug, PartialEq, Eq, Hash, Structural)]
pub enum PointSource {
    /// The centre of the cell of a mesh vertex.
    Center(u32),
    /// The corner at a mesh triangle, given by its ids in increasing order.
    Corner(u32, u32, u32),
}

/// One cell of the dual mesh.
#[derive(Clone, Debug)]
pub struct DualCell {
    /// The mesh vertex the cell stands for.
    pub vertex: u32,
    /// The index of its centre point.
    pub center: u32,
    /// The indices of its corner points, in the winding of the vertex's ring.
    pub corners: Vec<u32>,
}

/// The dual mesh without positions: `sources[i]` says where point `i` lies.
#[derive(Clone, Debug)]
pub struct DualTopology {
    pub sources: Vec<PointSource>,
    pub indices: Vec<u32>,
    pub cells: Vec<DualCell>,
}

/// The key a triangle is filed under: its three ids packed into one number.
pub open spec fn key_of(t: (u32, u32, u32)) -> int {
    t.0 * 18446744073709551616 + t.1 * 4294967296 + t.2
}

/// The corner point of the triangle `(f, r[i], r[i + 1])`, wrapping around.
pub open spec fn corner_source(f: u32, r: Seq<u32>, i: int) -> PointSource {
    let t = sorted3(f, r[i], r[(i + 1) % (r.len() as int)]);
    PointSource::Corner(t.0, t.1, t.2)
}

proof fn lemma_key_injective(t: (u32, u32, u32), u: (u32, u32, u32))
    requires
        key_of(t) == key_of(u),
    ensures
        t == u,
{
}

/// The point source of a corner triangle, given sorted.
pub open spec fn corner_of(t: (u32, u32, u32)) -> PointSource {
    PointSource::Corner(t.0, t.1, t.2)
}

/// The key a corner point is filed under.
pub open spec fn key_of_source(p: PointSource) -> int {
    match p {
        PointSource::Corner(a, b, c) => key_of((a, b, c)),
        _ => -1,
    }
}

/// `seen` files each corner of `sources` under its key, and nothing else.
pub open spec fn filed(seen: Map<u128, u32>, sources: Seq<PointSource>) -> bool {
    &&& forall|p: int| 0 <= p < sources.len() && (sources[p] is Corner) ==> seen.contains_key(#[trigger] key_of_source(sources[p]) as u128) && seen[key_of_source(sources[p]) as u128] == p
    &&& forall|k: u128| #[trigger] seen.contains_key(k) ==> seen[k] < sources.len() && (sources[seen[k] as int] is Corner) && key_of_source(sources[seen[k] as int]) == k
}

/// The point index of the corner at `t`, adding the point where it is new.
fn corner_index(t: (u32, u32, u32), seen: &mut HashMap<u128, u32>, sources: &mut Vec<PointSource>) -> (idx: u32)
    requires
        old(sources)@.len() < u32::MAX,
        old(sources)@.no_duplicates(),
        filed(old(seen)@, old(sources)@),
    ensures
        final(sources)@.no_duplicates(),
        filed(final(seen)@, final(sources)@),
        idx < final(sources)@.len(),
        final(sources)@[idx as int] == corner_of(t),
        final(sources)@ == old(sources)@ || final(sources)@ == old(sources)@.push(corner_of(t)),
        final(sources)@ == old(sources)@.push(corner_of(t)) ==> !old(sources)@.contains(corner_of(t)),
        final(sources)@.len() > old(sources)@.len() ==> idx == old(sources)@.len(),
{
    let key: u128 = t.0 as u128 * 18446744073709551616 + t.1 as u128 * 4294967296 + t.2 as u128;
    assert(key == key_of(t));
    match seen.get(&key) {
        Some(i) => {
            proof {
                let s = sources@[*i as int];
                lemma_key_injective((s->Corner_0, s->Corner_1, s->Corner_2), t);
            }
            *i
        },
        None => {
            let idx = sources.len() as u32;
            proof {
                assert(!old(sources)@.contains(corner_of(t))) by {
                    if old(sources)@.contains(corner_of(t)) {
                        let p = choose|p: int| 0 <= p < old(sources)@.len() && old(sources)@[p] == corner_of(t);
                        assert(key_of_source(old(sources)@[p]) == key_of(t));
                    }
                }
            }
            sources.push(corner_of_exec(t));
            seen.insert(key, idx);
            proof {
                let s = sources@;
                assert forall|a: int, b: int| 0 <= a < b < s.len() implies s[a] != s[b] by {
                    if b == s.len() - 1 {
                        assert(old(sources)@.contains(s[a]));
                    }
                }
                assert forall|p: int| 0 <= p < s.len() && (s[p] is Corner) implies seen@.contains_key(#[trigger] key_of_source(s[p]) as u128) && seen@[key_of_source(s[p]) as u128] == p by {
                    if p < s.len() - 1 {
                        let sp = s[p];
                        if key_of_source(sp) == key_of(t) {
                            lemma_key_injective((sp->Corner_0, sp->Corner_1, sp->Corner_2), t);
                            assert(old(sources)@.contains(sp));
                        }
                    }
                }
            }
            idx
        },
    }
}

/// The corner point of `t`.
fn corner_of_exec(t: (u32, u32, u32)) -> (r: PointSource)
    ensures
        r == corner_of(t),
{
    PointSource::Corner(t.0, t.1, t.2)
}

/// Whether cell `c` of vertex `f` with ring `r` is laid out in `sources` and
/// its triangles stand in `indices` from `at` on.
pub open spec fn cell_laid(c: DualCell, f: u32, r: Seq<u32>, sources: Seq<PointSource>, indices: Seq<u32>, at: int) -> bool {
    &&& c.vertex == f
    &&& c.center < sources.len()
    &&& sources[c.center as int] == PointSource::Center(f)
    &&& c.corners@.len() == r.len()
    &&& forall|i: int| 0 <= i < r.len() ==> (#[trigger] c.corners@[i]) < sources.len() && sources[c.corners@[i] as int] == corner_source(f, r, i)
    &&& 0 <= at && at + 3 * r.len() <= indices.len()
    &&& forall|i: int| #![trigger tri_at(indices, at, i)]
        0 <= i < r.len() ==> tri_at(indices, at, i) == (c.center, c.corners@[i], c.corners@[(i + 1) % (r.len() as int)])
}

/// The `i`-th triangle of a triangle list that starts at `at`.
pub open spec fn tri_at(indices: Seq<u32>, at: int, i: int) -> (u32, u32, u32) {
    (indices[at + 3 * i], indices[at + 3 * i + 1], indices[at + 3 * i + 2])
}

/// Adds the cell of vertex `f` with ring `around`: its centre, the corners
/// not yet there, and its triangles.
fn add_cell(
    f: u32,
    around: &[u32],
    seen: &mut HashMap<u128, u32>,
    sources: &mut Vec<PointSource>,
    indices: &mut Vec<u32>,
) -> (c: DualCell)
    requires
        0 < around@.len() <= 6,
        old(sources)@.len() + 7 < u32::MAX,
        old(indices)@.len() + 18 <= usize::MAX,
        !old(sources)@.contains(PointSource::Center(f)),
        old(sources)@.no_duplicates(),
        filed(old(seen)@, old(sources)@),
    ensures
        final(sources)@.no_duplicates(),
        filed(final(seen)@, final(sources)@),
        old(sources)@.len() < final(sources)@.len() <= old(sources)@.len() + 7,
        final(sources)@.subrange(0, old(sources)@.len() as int) == old(sources)@,
        final(indices)@.len() == old(indices)@.len() + 3 * around@.len(),
        final(indices)@.subrange(0, old(indices)@.len() as int) == old(indices)@,
        c.center == old(sources)@.len(),
        cell_laid(c, f, around@, final(sources)@, final(indices)@, old(indices)@.len() as int),
        forall|p: int|
            #![trigger final(sources)@[p]]
            old(sources)@.len() < p < final(sources)@.len() ==> (final(sources)@[p] is Corner) && exists|i: int| 0 <= i < around@.len() && (#[trigger] c.corners@[i]) == p,
{
    let v = around.len();
    let mid = sources.len() as u32;
    proof {
        assert forall|a: int, b: int| 0 <= a < b < old(sources)@.len() + 1 implies old(sources)@.push(PointSource::Center(f))[a] != old(sources)@.push(PointSource::Center(f))[b] by {
            if b == old(sources)@.len() {
                assert(old(sources)@.contains(old(sources)@[a]));
            }
        }
    }
    sources.push(PointSource::Center(f));
    proof {
        assert forall|k: u128| #[trigger] seen@.contains_key(k) implies seen@[k] < sources@.len() && (sources@[seen@[k] as int] is Corner) && key_of_source(sources@[seen@[k] as int]) == k by {
            assert(sources@[seen@[k] as int] == old(sources)@[seen@[k] as int]);
        }
        assert forall|p: int| 0 <= p < sources@.len() && (sources@[p] is Corner) implies seen@.contains_key(#[trigger] key_of_source(sources@[p]) as u128) && seen@[key_of_source(sources@[p]) as u128] == p by {
            assert(p < old(sources)@.len());
            assert(sources@[p] == old(sources)@[p]);
        }
    }
    let ghost base = sources@.len();
    let ghost mut owner: Seq<int> = Seq::empty();
    let mut corners: Vec<u32> = Vec::new();
    let mut i: usize = 0;
    while i < v
        invariant
            v == around@.len(),
            0 < v <= 6,
            0 <= i <= v,
            mid == old(sources)@.len(),
            base == mid + 1,
            base <= sources@.len() <= base + i,
            sources@.len() + 6 - i < u32::MAX,
            sources@.subrange(0, base as int) == old(sources)@.push(PointSource::Center(f)),
            sources@.no_duplicates(),
            filed(seen@, sources@),
            corners@.len() == i,
            forall|j: int| 0 <= j < i ==> (#[trigger] corners@[j]) < sources@.len() && sources@[corners@[j] as int] == corner_source(f, around@, j),
            owner.len() == sources@.len() - base,
            forall|q: int| 0 <= q < owner.len() ==> 0 <= #[trigger] owner[q] < i && corners@[owner[q]] == base + q,
        decreases v - i,
    {
        let t = trio(f, around[i], around[(i + 1) % v]);
        let ghost before = sources@;
        let idx = corner_index(t, seen, sources);
        proof {
            assert(sources@.subrange(0, base as int) == before.subrange(0, base as int));
        }
        let ghost cb = corners@;
        corners.push(idx);
        proof {
            assert(corners@[i as int] == idx);
            if sources@.len() > before.len() {
                owner = owner.push(i as int);
            }
            assert forall|q: int| 0 <= q < owner.len() implies 0 <= #[trigger] owner[q] < i + 1 && corners@[owner[q]] == base + q by {
                if q < owner.len() - 1 || sources@.len() == before.len() {
                    assert(corners@[owner[q]] == cb[owner[q]]);
                }
            }
            assert forall|j: int| 0 <= j < i + 1 implies (#[trigger] corners@[j]) < sources@.len() && sources@[corners@[j] as int] == corner_source(f, around@, j) by {
                if j < i {
                    assert(before[corners@[j] as int] == sources@[corners@[j] as int]);
                }
            }
        }
        i = i + 1;
    }
    let ghost start = indices@.len();
    let mut i: usize = 0;
    while i < v
        invariant
            v == around@.len(),
            0 < v <= 6,
            0 <= i <= v,
            corners@.len() == v,
            start == old(indices)@.len(),
            start + 18 <= usize::MAX,
            indices@.len() == start + 3 * i,
            indices@.subrange(0, start as int) == old(indices)@,
            forall|j: int| #![trigger tri_at(indices@, start as int, j)]
                0 <= j < i ==> tri_at(indices@, start as int, j) == (mid, corners@[j], corners@[(j + 1) % (v as int)]),
        decreases v - i,
    {
        let ghost before = indices@;
        indices.push(mid);
        indices.push(corners[i]);
        indices.push(corners[(i + 1) % v]);
        proof {
            assert(indices@.subrange(0, start as int) == before.subrange(0, start as int));
            assert forall|j: int| #![trigger tri_at(indices@, start as int, j)]
                0 <= j < i + 1 implies tri_at(indices@, start as int, j) == (mid, corners@[j], corners@[(j + 1) % (v as int)]) by {
                if j < i {
                    assert(tri_at(before, start as int, j) == (mid, corners@[j], corners@[(j + 1) % (v as int)]));
                    assert(indices@[start + 3 * j] == before[start + 3 * j]);
                    assert(indices@[start + 3 * j + 1] == before[start + 3 * j + 1]);
                    assert(indices@[start + 3 * j + 2] == before[start + 3 * j + 2]);
                } else {
                    assert(before.len() == start + 3 * i);
                    assert(indices@ == before.push(mid).push(corners@[i as int]).push(corners@[(i + 1) % (v as int)]));
                    assert(indices@[start + 3 * j] == mid);
                    assert(indices@[start + 3 * j + 1] == corners@[j]);
                    assert(indices@[start + 3 * j + 2] == corners@[(j + 1) % (v as int)]);
                }
            }
        }
        i = i + 1;
    }
    proof {
        assert(sources@.subrange(0, mid as int) =~= old(sources)@) by {
            assert(sources@.subrange(0, base as int).subrange(0, mid as int) =~= sources@.subrange(0, mid as int));
        }
        assert(sources@[mid as int] == PointSource::Center(f)) by {
            assert(sources@.subrange(0, base as int)[mid as int] == sources@[mid as int]);
        }
    }
    let cell = DualCell { vertex: f, center: mid, corners };
    proof {
        assert forall|p: int|
            #![trigger sources@[p]]
            old(sources)@.len() < p < sources@.len() implies (sources@[p] is Corner) && exists|i: int| 0 <= i < around@.len() && (#[trigger] cell.corners@[i]) == p by {
            assert(cell.corners@[owner[p - base]] == p);
            assert(sources@[cell.corners@[owner[p - base]] as int] == corner_source(f, around@, owner[p - base]));
        }
    }
    cell
}

/// Whether vertex `f` can get a cell: it has a non-empty ring.
pub open spec fn dual_ready(m: Map<u32, Seq<u32>>, f: u32) -> bool {
    &&& m.contains_key(f)
    &&& m[f].len() > 0
}

/// Where the triangles of cell `k` start: three indices per corner of the cells before it.
pub open spec fn tri_offset(cells: Seq<DualCell>, k: int) -> int
    decreases k,
{
    if k <= 0 {
        0
    } else {
        tri_offset(cells, k - 1) + 3 * cells[k - 1].corners@.len()
    }
}

/// Whether point `p` is the centre or a corner of one of the first `k` cells.
pub open spec fn used(cells: Seq<DualCell>, k: int, p: int) -> bool {
    exists|j: int, i: int|
        0 <= j < k && (cells[j].center == p || (0 <= i < cells[j].corners@.len() && #[trigger] cells[j].corners@[i] == p))
}

/// The points of the dual mesh of the vertices `order`: each one's centre and
/// the corners at the triangles around it.
pub open spec fn dual_points(m: Map<u32, Seq<u32>>, order: Seq<u32>) -> Set<PointSource> {
    Set::new(
        |p: PointSource|
            exists|k: int, i: int|
                0 <= k < order.len() && (p == PointSource::Center(order[k]) || (0 <= i < m[order[k]].len() && p == corner_source(
                    order[k],
                    m[order[k]],
                    i,
                ))),
    )
}

/// `d` is the dual mesh of the vertices `order` of the adjacency map `m`:
/// one cell per vertex, in order, each laid out with its triangles in turn,
/// distinct points, each the centre or a corner of a cell.
pub open spec fn dual_of(m: Map<u32, Seq<u32>>, order: Seq<u32>, d: DualTopology) -> bool {
    &&& d.cells@.len() == order.len()
    &&& d.sources@.no_duplicates()
    &&& d.indices@.len() == tri_offset(d.cells@, d.cells@.len() as int)
    &&& forall|k: int|
        0 <= k < order.len() ==> cell_laid(#[trigger] d.cells@[k], order[k], m[order[k]], d.sources@, d.indices@, tri_offset(d.cells@, k))
    &&& forall|p: int| 0 <= p < d.sources@.len() ==> #[trigger] used(d.cells@, d.cells@.len() as int, p)
}

/// The points of a dual mesh are the centres of its vertices and the
/// distinct triangles around them, each once: so there are as many as
/// vertices plus distinct corner triangles.
pub proof fn lemma_dual_point_count(m: Map<u32, Seq<u32>>, order: Seq<u32>, d: DualTopology)
    requires
        dual_of(m, order, d),
    ensures
        d.sources@.to_set() == dual_points(m, order),
        d.sources@.len() == dual_points(m, order).len(),
{
    let s = d.sources@;
    let cells = d.cells@;
    assert forall|x: PointSource| s.to_set().contains(x) <==> dual_points(m, order).contains(x) by {
        if s.to_set().contains(x) {
            let q = choose|q: int| 0 <= q < s.len() && s[q] == x;
            assert(used(cells, cells.len() as int, q));
            let (j, i) = choose|j: int, i: int|
                0 <= j < cells.len() && (cells[j].center == q || (0 <= i < cells[j].corners@.len() && #[trigger] cells[j].corners@[i] == q));
            assert(cell_laid(cells[j], order[j], m[order[j]], s, d.indices@, tri_offset(cells, j)));
            if cells[j].center == q {
                assert(x == PointSource::Center(order[j]));
            } else {
                assert(s[cells[j].corners@[i] as int] == corner_source(order[j], m[order[j]], i));
            }
        }
        if dual_points(m, order).contains(x) {
            let (k, i) = choose|k: int, i: int|
                0 <= k < order.len() && (x == PointSource::Center(order[k]) || (0 <= i < m[order[k]].len() && x == corner_source(
                    order[k],
                    m[order[k]],
                    i,
                )));
            assert(cell_laid(cells[k], order[k], m[order[k]], s, d.indices@, tri_offset(cells, k)));
            if x == PointSource::Center(order[k]) {
                assert(s[cells[k].center as int] == x);
            } else {
                assert(s[cells[k].corners@[i] as int] == x);
            }
        }
    }
    assert(s.to_set() =~= dual_points(m, order));
    s.unique_seq_to_set();
}

/// A cell laid out stays laid out when points and triangles are added after it.
proof fn lemma_laid_extend(
    c: DualCell,
    f: u32,
    r: Seq<u32>,
    s1: Seq<PointSource>,
    i1: Seq<u32>,
    s2: Seq<PointSource>,
    i2: Seq<u32>,
    at: int,
)
    requires
        cell_laid(c, f, r, s1, i1, at),
        s1.len() <= s2.len(),
        s2.subrange(0, s1.len() as int) == s1,
        i1.len() <= i2.len(),
        i2.subrange(0, i1.len() as int) == i1,
    ensures
        cell_laid(c, f, r, s2, i2, at),
{
    assert(s2[c.center as int] == s2.subrange(0, s1.len() as int)[c.center as int]);
    assert forall|i: int| 0 <= i < r.len() implies (#[trigger] c.corners@[i]) < s2.len() && s2[c.corners@[i] as int] == corner_source(f, r, i) by {
        assert(s2[c.corners@[i] as int] == s2.subrange(0, s1.len() as int)[c.corners@[i] as int]);
    }
    assert forall|i: int| #![trigger tri_at(i2, at, i)]
        0 <= i < r.len() implies tri_at(i2, at, i) == (c.center, c.corners@[i], c.corners@[(i + 1) % (r.len() as int)]) by {
        assert(tri_at(i1, at, i) == (c.center, c.corners@[i], c.corners@[(i + 1) % (r.len() as int)]));
        assert(i2[at + 3 * i] == i2.subrange(0, i1.len() as int)[at + 3 * i]);
        assert(i2[at + 3 * i + 1] == i2.subrange(0, i1.len() as int)[at + 3 * i + 1]);
        assert(i2[at + 3 * i + 2] == i2.subrange(0, i1.len() as int)[at + 3 * i + 2]);
    }
}

/// The dual mesh of the vertices `order`, in that order, without positions:
/// one centre point per vertex, one corner point per distinct triangle
/// around them, and a fan of triangles per cell. `None` where a vertex is
/// not `dual_ready`.
#[verifier::spinoff_prover]
#[verifier::rlimit(100)]
pub fn dual_topology(order: &[u32], coordinate_store: &HashMap<u32, Hexagonish<u32>>) -> (r: Option<DualTopology>)
    requires
        order@.no_duplicates(),
        7 * order@.len() + 7 < u32::MAX,
        18 * order@.len() + 18 <= usize::MAX,
    ensures
        r is Some <==> forall|k: int| 0 <= k < order@.len() ==> dual_ready(rings(coordinate_store@), #[trigger] order@[k]),
        match r {
            Some(d) => dual_of(rings(coordinate_store@), order@, d),
            None => true,
        },
{
    let ghost m = rings(coordinate_store@);
    let mut seen: HashMap<u128, u32> = HashMap::new();
    let mut sources: Vec<PointSource> = Vec::new();
    let mut indices: Vec<u32> = Vec::new();
    let mut cells: Vec<DualCell> = Vec::new();
    proof {
        reveal(laid_upto);
    }
    let mut k: usize = 0;
    while k < order.len()
        invariant
            m == rings(coordinate_store@),
            order@.no_duplicates(),
            7 * order@.len() + 7 < u32::MAX,
            18 * order@.len() + 18 <= usize::MAX,
            0 <= k <= order@.len(),
            cells@.len() == k,
            sources@.len() <= 7 * k,
            indices@.len() == tri_offset(cells@, k as int),
            tri_offset(cells@, k as int) <= 18 * k,
            sources@.no_duplicates(),
            filed(seen@, sources@),
            forall|j: int| 0 <= j < k ==> dual_ready(m, #[trigger] order@[j]),
            laid_upto(cells@, order@, m, sources@, indices@, k as int),
        decreases order@.len() - k,
    {
        let f = order[k];
        let list = match coordinate_store.get(&f) {
            None => return None,
            Some(list) => list,
        };
        let around = index_ring_slice(list);
        assert(around@ == m[f]);
        if around.len() == 0 {
            return None;
        }
        proof {
            lemma_center_fresh(cells@, order@, m, sources@, indices@, k as int);
        }
        let ghost s0 = sources@;
        let ghost i0 = indices@;
        let ghost c0 = cells@;
        let cell = add_cell(f, around, &mut seen, &mut sources, &mut indices);
        let ghost gcell = cell;
        cells.push(cell);
        proof {
            assert(cells@[k as int] == gcell);
            assert forall|p: int|
                #![trigger sources@[p]]
                s0.len() < p < sources@.len() implies (sources@[p] is Corner) && exists|i: int| 0 <= i < m[order@[k as int]].len() && (#[trigger] cells@[k as int].corners@[i]) == p by {
                let i = choose|i: int| 0 <= i < around@.len() && (#[trigger] gcell.corners@[i]) == p;
                assert(cells@[k as int].corners@[i] == p);
            }
            lemma_dual_extend(c0, cells@, order@, m, s0, sources@, i0, indices@, k as int);
        }
        k = k + 1;
    }
    proof {
        reveal(laid_upto);
    }
    let d = DualTopology { sources, indices, cells };
    proof {
        assert(d.cells@ == cells@ && d.sources@ == sources@ && d.indices@ == indices@);
    }
    Some(d)
}

/// The first `k` cells are laid out, and every point belongs to one of them.
#[verifier::opaque]
pub open spec fn laid_upto(
    cells: Seq<DualCell>,
    order: Seq<u32>,
    m: Map<u32, Seq<u32>>,
    sources: Seq<PointSource>,
    indices: Seq<u32>,
    k: int,
) -> bool {
    &&& forall|j: int| 0 <= j < k ==> cell_laid(#[trigger] cells[j], order[j], m[order[j]], sources, indices, tri_offset(cells, j))
    &&& forall|p: int| 0 <= p < sources.len() ==> #[trigger] used(cells, k, p)
}

/// A vertex not yet processed has no centre point yet.
proof fn lemma_center_fresh(cells: Seq<DualCell>, order: Seq<u32>, m: Map<u32, Seq<u32>>, sources: Seq<PointSource>, indices: Seq<u32>, k: int)
    requires
        order.no_duplicates(),
        0 <= k < order.len(),
        cells.len() == k,
        laid_upto(cells, order, m, sources, indices, k),
    ensures
        !sources.contains(PointSource::Center(order[k])),
{
    reveal(laid_upto);
    let f = order[k];
    if sources.contains(PointSource::Center(f)) {
        let p = choose|p: int| 0 <= p < sources.len() && sources[p] == PointSource::Center(f);
        assert(used(cells, k, p));
        let (j, i) = choose|j: int, i: int|
            0 <= j < k && (cells[j].center == p || (0 <= i < cells[j].corners@.len() && #[trigger] cells[j].corners@[i] == p));
        assert(cell_laid(cells[j], order[j], m[order[j]], sources, indices, tri_offset(cells, j)));
        if cells[j].center == p {
            assert(order[j] == f);
        } else {
            assert(sources[cells[j].corners@[i] as int] == corner_source(order[j], m[order[j]], i));
        }
    }
}

/// The invariant of the dual walk carries over a new cell.
#[verifier::spinoff_prover]
#[verifier::rlimit(100)]
proof fn lemma_dual_extend(
    c0: Seq<DualCell>,
    cells: Seq<DualCell>,
    order: Seq<u32>,
    m: Map<u32, Seq<u32>>,
    s0: Seq<PointSource>,
    sources: Seq<PointSource>,
    i0: Seq<u32>,
    indices: Seq<u32>,
    k: int,
)
    requires
        0 <= k < order.len(),
        c0.len() == k,
        cells.len() == k + 1,
        forall|j: int| 0 <= j < k ==> cells[j] == c0[j],
        i0.len() == tri_offset(c0, k),
        laid_upto(c0, order, m, s0, i0, k),
        s0.len() < sources.len(),
        sources.subrange(0, s0.len() as int) == s0,
        indices.len() == i0.len() + 3 * m[order[k]].len(),
        indices.subrange(0, i0.len() as int) == i0,
        cells[k].center == s0.len(),
        cell_laid(cells[k], order[k], m[order[k]], sources, indices, i0.len() as int),
        forall|p: int|
            #![trigger sources[p]]
            s0.len() < p < sources.len() ==> (sources[p] is Corner) && exists|i: int| 0 <= i < m[order[k]].len() && (#[trigger] cells[k].corners@[i]) == p,
    ensures
        indices.len() == tri_offset(cells, k + 1),
        laid_upto(cells, order, m, sources, indices, k + 1),
{
    reveal(laid_upto);
    lemma_tri_offset_prefix(c0, cells, k);
    assert forall|j: int|
        0 <= j < k + 1 implies cell_laid(#[trigger] cells[j], order[j], m[order[j]], sources, indices, tri_offset(cells, j)) by {
        if j < k {
            lemma_tri_offset_prefix(c0, cells, j);
            lemma_laid_extend(c0[j], order[j], m[order[j]], s0, i0, sources, indices, tri_offset(c0, j));
        }
    }
    assert forall|p: int| 0 <= p < sources.len() implies #[trigger] used(cells, k + 1, p) by {
        if p < s0.len() {
            assert(used(c0, k, p));
            let (j, i) = choose|j: int, i: int|
                0 <= j < k && (c0[j].center == p || (0 <= i < c0[j].corners@.len() && #[trigger] c0[j].corners@[i] == p));
            if c0[j].center == p {
                assert(cells[j].center == p);
            } else {
                assert(cells[j].corners@[i] == p);
            }
        } else if p == s0.len() {
            assert(cells[k].center == p);
        } else {
            assert(sources[p] is Corner);
            let i = choose|i: int| 0 <= i < m[order[k]].len() && (#[trigger] cells[k].corners@[i]) == p;
            assert(cells[k].corners@[i] == p);
        }
    }
}

/// Offsets only look at the cells before them.
proof fn lemma_tri_offset_prefix(a: Seq<DualCell>, b: Seq<DualCell>, k: int)
    requires
        0 <= k <= a.len(),
        k <= b.len(),
        forall|j: int| 0 <= j < k ==> a[j] == b[j],
    ensures
        tri_offset(a, k) == tri_offset(b, k),
    decreases k,
{
    if k > 0 {
        lemma_tri_offset_prefix(a, b, k - 1);
    }
}

} // verus!
