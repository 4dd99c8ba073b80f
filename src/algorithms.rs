//! Walks over the tiling: line continuation, connected blobs and their
//! borders, and ring ordering.

use crate::adjacency::index_of;
use crate::coordinate::{fits, lemma_ring_shape, lemma_ring_symmetric, ring_of, valid_coord, Chunked, Coordinate};
use vstd::prelude::*;

verus! {

/// The entry `by` places after the first `previous` in `r`, wrapping around.
pub open spec fn rotate_spec(r: Seq<Coordinate>, previous: Coordinate, by: int) -> Coordinate {
    r[(index_of(r, previous) + by) % (r.len() as int)]
}

/// The first place of `x` in `r`, if any.
pub(crate) fn coord_position(r: &[Coordinate], x: Coordinate) -> (p: Option<usize>)
    ensures
        match p {
            Some(i) => i == index_of(r@, x) && i < r@.len() && r@[i as int] == x && r@.contains(x),
            None => index_of(r@, x) == -1 && !r@.contains(x),
        },
{
    let mut i: usize = 0;
    while i < r.len()
        invariant
            0 <= i <= r@.len(),
            forall|j: int| 0 <= j < i ==> r@[j] != x,
        decreases r@.len() - i,
    {
        if r[i] == x {
            proof {
                let c = choose|c: int| 0 <= c < r@.len() && r@[c] == x && forall|j: int| 0 <= j < c ==> r@[j] != x;
                assert(r@.contains(x));
                if c < i {
                } else if c > i {
                }
            }
            return Some(i);
        }
        i = i + 1;
    }
    None
}

/// The entry `by` places after `previous` in the ring `surrounding`.
fn rotate(previous: Coordinate, by: usize, back: bool, surrounding: &[Coordinate]) -> (r: Option<Coordinate>)
    requires
        by <= 3,
        surrounding@.len() <= 6,
    ensures
        match r {
            Some(c) => surrounding@.contains(previous) && c == rotate_spec(
                surrounding@,
                previous,
                if back { -(by as int) } else { by as int },
            ),
            None => !surrounding@.contains(previous),
        },
{
    match coord_position(surrounding, previous) {
        None => None,
        Some(idx) => {
            let len = surrounding.len();
            let i = if back {
                (idx + 3 * len - by) % len
            } else {
                (idx + by) % len
            };
            proof {
                let d = if back { -(by as int) } else { by as int };
                if back {
                    vstd::arithmetic::div_mod::lemma_mod_add_multiples_vanish(idx + d, len as int);
                    vstd::arithmetic::div_mod::lemma_mod_add_multiples_vanish(idx + d + len, len as int);
                    vstd::arithmetic::div_mod::lemma_mod_add_multiples_vanish(idx + d + 2 * len, len as int);
                }
            }
            Some(surrounding[i])
        },
    }
}

/// Whether `f` always picks one of the two directions it is offered.
pub open spec fn picks_offered<F: Fn(Coordinate, Coordinate, (Coordinate, Coordinate)) -> Coordinate>(f: F) -> bool {
    &&& forall|p: Coordinate, n: Coordinate, a: Coordinate, b: Coordinate| #[trigger] f.requires((p, n, (a, b)))
    &&& forall|p: Coordinate, n: Coordinate, a: Coordinate, b: Coordinate, c: Coordinate|
        #[trigger] f.ensures((p, n, (a, b)), c) ==> c == a || c == b
}

/// A line across the tiling, continued one cell at a time.
pub struct LineCont<F> {
    sphere: Chunked,
    prev: Coordinate,
    next: Coordinate,
    choose: F,
}

impl<F: Fn(Coordinate, Coordinate, (Coordinate, Coordinate)) -> Coordinate> LineCont<F> {
    /// The addressing scheme walked on.
    pub closed spec fn grid(self) -> Chunked {
        self.sphere
    }

    /// The cell the line came from.
    pub closed spec fn from(self) -> Coordinate {
        self.prev
    }

    /// The cell the line is at.
    pub closed spec fn at(self) -> Coordinate {
        self.next
    }

    /// The chooser at pentagons.
    pub closed spec fn chooser(self) -> F {
        self.choose
    }

    /// Both cells are valid neighbours in a tiling that fits.
    pub open spec fn wf(self) -> bool {
        &&& self.grid().wf()
        &&& valid_coord(self.grid().n(), self.from())
        &&& valid_coord(self.grid().n(), self.at())
        &&& ring_of(self.grid().n(), self.at()).contains(self.from())
        &&& picks_offered(self.chooser())
    }

    /// The next cell of the line: in the ring of the current cell, the cells
    /// three places on either side of the one the line came from. On a
    /// hexagon they coincide; on a pentagon the chooser picks. The line
    /// never ends.
    pub fn next(&mut self) -> (r: Option<Coordinate>)
        requires
            old(self).wf(),
        ensures
            final(self).wf(),
            final(self).grid() == old(self).grid(),
            final(self).chooser() == old(self).chooser(),
            ({
                let ring = ring_of(old(self).grid().n(), old(self).at());
                let a = rotate_spec(ring, old(self).from(), 3);
                let b = rotate_spec(ring, old(self).from(), -3);
                match r {
                    None => false,
                    Some(c) => {
                        &&& final(self).from() == old(self).at()
                        &&& final(self).at() == c
                        &&& a == b ==> c == a
                        &&& a != b ==> old(self).chooser().ensures((old(self).from(), old(self).at(), (a, b)), c)
                    },
                }
            }),
    {
        let surrounding = self.sphere.ring(self.next);
        proof {
            lemma_ring_shape(self.sphere.n(), self.next);
        }
        let choice_a = match rotate(self.prev, 3, false, surrounding.as_slice()) {
            None => return None,
            Some(c) => c,
        };
        let choice_b = match rotate(self.prev, 3, true, surrounding.as_slice()) {
            None => return None,
            Some(c) => c,
        };
        proof {
            let ring = surrounding@;
            let i = index_of(ring, self.prev);
            assert(ring.contains(self.prev));
            assert(0 <= i < ring.len()) by {
                let c = choose|c: int| 0 <= c < ring.len() && ring[c] == self.prev && forall|j: int| 0 <= j < c ==> ring[j] != self.prev;
            }
            assert(valid_coord(self.sphere.n(), choice_a));
            assert(valid_coord(self.sphere.n(), choice_b));
            lemma_ring_symmetric(self.sphere.n(), self.next, (i + 3) % (ring.len() as int));
            lemma_ring_symmetric(self.sphere.n(), self.next, (i - 3) % (ring.len() as int));
        }
        let choice = if choice_a != choice_b {
            (self.choose)(self.prev, self.next, (choice_a, choice_b))
        } else {
            choice_a
        };
        self.prev = self.next;
        self.next = choice;
        Some(choice)
    }
}

impl Chunked {
    /// A line that starts with the step from `from` to `to`, which must be
    /// neighbours. `choose` takes the cell before a pentagon, the pentagon,
    /// and the two directions on, and returns one of them.
    pub fn continue_line<F: Fn(Coordinate, Coordinate, (Coordinate, Coordinate)) -> Coordinate>(
        self,
        from: Coordinate,
        to: Coordinate,
        choose: F,
    ) -> (r: LineCont<F>)
        requires
            self.wf(),
            valid_coord(self.n(), from),
            valid_coord(self.n(), to),
            ring_of(self.n(), to).contains(from),
            picks_offered(choose),
        ensures
            r.wf(),
            r.grid() == self,
            r.from() == from,
            r.at() == to,
            r.chooser() == choose,
    {
        LineCont { sphere: self, prev: from, next: to, choose }
    }
}


/// The first place in `r` of a cell of `all` that `seen` does not hold, or -1.
pub open spec fn first_fresh(r: Seq<Coordinate>, all: Set<Coordinate>, seen: Seq<Coordinate>) -> int {
    if exists|i: int| 0 <= i < r.len() && all.contains(r[i]) && !seen.contains(r[i]) {
        choose|i: int|
            0 <= i < r.len() && all.contains(r[i]) && !seen.contains(r[i]) && forall|j: int|
                0 <= j < i ==> !(all.contains(r[j]) && !seen.contains(r[j]))
    } else {
        -1
    }
}

/// The walk of `k` steps from `start` through `all`: each step goes to the
/// first neighbour, in ring order, that is in `all` and not yet visited.
pub open spec fn walk(n: int, all: Set<Coordinate>, start: Coordinate, k: nat) -> Option<Seq<Coordinate>>
    decreases k,
{
    if k == 0 {
        Some(seq![start])
    } else {
        match walk(n, all, start, (k - 1) as nat) {
            Some(w) => {
                let r = ring_of(n, w.last());
                let i = first_fresh(r, all, w);
                if i >= 0 {
                    Some(w.push(r[i]))
                } else {
                    None
                }
            },
            None => None,
        }
    }
}

/// The first place in `rb` of a cell that `ra` holds and `inside` does not, or -1.
pub open spec fn first_shared_out(ra: Seq<Coordinate>, rb: Seq<Coordinate>, inside: Set<Coordinate>) -> int {
    if exists|i: int| 0 <= i < rb.len() && ra.contains(rb[i]) && !inside.contains(rb[i]) {
        choose|i: int|
            0 <= i < rb.len() && ra.contains(rb[i]) && !inside.contains(rb[i]) && forall|j: int|
                0 <= j < i ==> !(ra.contains(rb[j]) && !inside.contains(rb[j]))
    } else {
        -1
    }
}

/// The first place in the ring of `b` of a common neighbour of `a` and `b`
/// that `inside` does not hold, or -1.
pub open spec fn common_out_index(n: int, inside: Set<Coordinate>, a: Coordinate, b: Coordinate) -> int {
    first_shared_out(ring_of(n, a), ring_of(n, b), inside)
}

/// The common outside neighbour of `a` and `b` exists and has `b` in its ring.
pub open spec fn chirality_known(n: int, inside: Set<Coordinate>, a: Coordinate, b: Coordinate) -> bool {
    let k = common_out_index(n, inside, a, b);
    k >= 0 && ring_of(n, ring_of(n, b)[k]).contains(b)
}

/// In the ring of the common outside neighbour of `a` and `b`, `a` comes
/// right after `b`.
pub open spec fn outward(n: int, inside: Set<Coordinate>, a: Coordinate, b: Coordinate) -> bool {
    let c = ring_of(n, b)[common_out_index(n, inside, a, b)];
    let r = ring_of(n, c);
    r[(index_of(r, b) + 1) % (r.len() as int)] == a
}

/// The ring order of `coords`: the walk from its first cell through all of
/// them, closed back to the start, and reversed where its first two cells do
/// not wind outward. `None` where the walk gets stuck, does not close, or
/// the winding cannot be told.
pub open spec fn ordered_ring(n: int, coords: Seq<Coordinate>, inside: Set<Coordinate>) -> Option<Seq<Coordinate>> {
    if coords.len() == 0 {
        None
    } else {
        match walk(n, coords.to_set(), coords[0], (coords.len() - 1) as nat) {
            Some(w) => if w.len() >= 2 && ring_of(n, w.last()).contains(w[0]) && chirality_known(n, inside, w[0], w[1]) {
                if outward(n, inside, w[0], w[1]) {
                    Some(w)
                } else {
                    Some(w.reverse())
                }
            } else {
                None
            },
            None => None,
        }
    }
}

/// A connected set of cells, and those of its cells that have a neighbour
/// outside the set it was found in.
#[derive(Clone, Debug)]
pub struct Blob {
    pub contents: Vec<Coordinate>,
    pub borders: Vec<Coordinate>,
}

/// Whether `x` has a neighbour outside `all`.
pub open spec fn on_border(n: int, all: Set<Coordinate>, x: Coordinate) -> bool {
    exists|i: int| 0 <= i < ring_of(n, x).len() && !all.contains(#[trigger] ring_of(n, x)[i])
}

/// Whether every neighbour in `all` of a cell of `part` lies in `part`.
pub open spec fn closed_in(n: int, all: Set<Coordinate>, part: Seq<Coordinate>) -> bool {
    forall|x: Coordinate, i: int|
        part.contains(x) && 0 <= i < ring_of(n, x).len() && all.contains(#[trigger] ring_of(n, x)[i]) ==> part.contains(ring_of(n, x)[i])
}

/// Whether `path` walks from neighbour to neighbour inside `part`.
pub open spec fn is_path(n: int, part: Seq<Coordinate>, path: Seq<Coordinate>) -> bool {
    &&& path.len() > 0
    &&& forall|k: int| 0 <= k < path.len() ==> part.contains(#[trigger] path[k])
    &&& forall|k: int| 0 <= k < path.len() - 1 ==> ring_of(n, #[trigger] path[k]).contains(path[k + 1])
}

/// Whether a walk inside `part` leads from `a` to `b`.
pub open spec fn linked(n: int, part: Seq<Coordinate>, a: Coordinate, b: Coordinate) -> bool {
    exists|path: Seq<Coordinate>| #[trigger] is_path(n, part, path) && path[0] == a && path.last() == b
}

/// Whether `blobs` split the cells of `all` into disjoint, duplicate-free
/// parts that no neighbour relation in `all` crosses, each with its border
/// cells listed.
pub open spec fn is_partition(n: int, all: Set<Coordinate>, blobs: Seq<Blob>) -> bool {
    &&& forall|x: Coordinate| all.contains(x) <==> exists|b: int| 0 <= b < blobs.len() && #[trigger] blobs[b].contents@.contains(x)
    &&& forall|b: int| 0 <= b < blobs.len() ==> (#[trigger] blobs[b].contents@).no_duplicates() && blobs[b].contents@.len() > 0
    &&& forall|b1: int, b2: int, x: Coordinate|
        0 <= b1 < blobs.len() && 0 <= b2 < blobs.len() && b1 != b2 && #[trigger] blobs[b1].contents@.contains(x) ==> !#[trigger] blobs[b2].contents@.contains(x)
    &&& forall|b: int, x: Coordinate|
        0 <= b < blobs.len() ==> (#[trigger] blobs[b].borders@.contains(x) <==> (blobs[b].contents@.contains(x) && on_border(n, all, x)))
    &&& forall|b: int| 0 <= b < blobs.len() ==> (#[trigger] blobs[b].borders@).no_duplicates()
    &&& forall|b: int| 0 <= b < blobs.len() ==> closed_in(n, all, #[trigger] blobs[b].contents@)
    &&& forall|b: int, x: Coordinate|
        0 <= b < blobs.len() && #[trigger] blobs[b].contents@.contains(x) ==> linked(n, blobs[b].contents@, blobs[b].contents@[0], x)
}

/// Whether `v` holds `x`.
fn holds(v: &Vec<Coordinate>, x: Coordinate) -> (r: bool)
    ensures
        r == v@.contains(x),
{
    let mut i: usize = 0;
    while i < v.len()
        invariant
            0 <= i <= v@.len(),
            forall|j: int| 0 <= j < i ==> v@[j] != x,
        decreases v@.len() - i,
    {
        if v[i] == x {
            return true;
        }
        i = i + 1;
    }
    false
}

/// The first place in `r` of a cell of `all` that `seen` does not hold.
fn first_fresh_in(r: &Vec<Coordinate>, all: &Vec<Coordinate>, seen: &Vec<Coordinate>) -> (p: Option<usize>)
    ensures
        match p {
            Some(i) => i < r@.len() && i == first_fresh(r@, all@.to_set(), seen@),
            None => first_fresh(r@, all@.to_set(), seen@) == -1,
        },
{
    let ghost aset = all@.to_set();
    let mut j: usize = 0;
    while j < r.len()
        invariant
            0 <= j <= r@.len(),
            aset == all@.to_set(),
            forall|i: int| 0 <= i < j ==> !(aset.contains(r@[i]) && !seen@.contains(r@[i])),
        decreases r@.len() - j,
    {
        let x = r[j];
        let fresh = holds(all, x) && !holds(seen, x);
        proof {
            assert(all@.contains(x) == aset.contains(x));
        }
        if fresh {
            proof {
                let c = choose|c: int|
                    0 <= c < r@.len() && aset.contains(r@[c]) && !seen@.contains(r@[c]) && forall|i: int|
                        0 <= i < c ==> !(aset.contains(r@[i]) && !seen@.contains(r@[i]));
                if c < j {
                } else if c > j {
                }
            }
            return Some(j);
        }
        j = j + 1;
    }
    None
}

/// The first place in `rb` of a cell that `ra` holds and `inside` does not.
fn first_shared_out_in(ra: &Vec<Coordinate>, rb: &Vec<Coordinate>, inside: &Vec<Coordinate>) -> (p: Option<usize>)
    ensures
        match p {
            Some(i) => i < rb@.len() && i == first_shared_out(ra@, rb@, inside@.to_set()),
            None => first_shared_out(ra@, rb@, inside@.to_set()) == -1,
        },
{
    let ghost iset = inside@.to_set();
    let mut j: usize = 0;
    while j < rb.len()
        invariant
            0 <= j <= rb@.len(),
            iset == inside@.to_set(),
            forall|i: int| 0 <= i < j ==> !(ra@.contains(rb@[i]) && !iset.contains(rb@[i])),
        decreases rb@.len() - j,
    {
        let x = rb[j];
        let shared = coord_position(ra.as_slice(), x).is_some() && !holds(inside, x);
        proof {
            assert(inside@.contains(x) == iset.contains(x));
        }
        if shared {
            proof {
                let c = choose|c: int|
                    0 <= c < rb@.len() && ra@.contains(rb@[c]) && !iset.contains(rb@[c]) && forall|i: int|
                        0 <= i < c ==> !(ra@.contains(rb@[i]) && !iset.contains(rb@[i]));
                if c < j {
                } else if c > j {
                }
            }
            return Some(j);
        }
        j = j + 1;
    }
    None
}

/// What `first_fresh` finds, when it finds a place.
proof fn lemma_first_fresh(r: Seq<Coordinate>, all: Set<Coordinate>, seen: Seq<Coordinate>)
    ensures
        first_fresh(r, all, seen) >= 0 ==> ({
            let i = first_fresh(r, all, seen);
            0 <= i < r.len() && all.contains(r[i]) && !seen.contains(r[i])
        }),
{
    if exists|i: int| 0 <= i < r.len() && all.contains(r[i]) && !seen.contains(r[i]) {
        let c = choose|i: int|
            0 <= i < r.len() && all.contains(r[i]) && !seen.contains(r[i]) && forall|j: int|
                0 <= j < i ==> !(all.contains(r[j]) && !seen.contains(r[j]));
        let w = choose|i: int| 0 <= i < r.len() && all.contains(r[i]) && !seen.contains(r[i]);
        lemma_least_fresh(r, all, seen, w);
    }
}

/// Below any fresh place there is a least one.
proof fn lemma_least_fresh(r: Seq<Coordinate>, all: Set<Coordinate>, seen: Seq<Coordinate>, w: int)
    requires
        0 <= w < r.len() && all.contains(r[w]) && !seen.contains(r[w]),
    ensures
        exists|i: int|
            0 <= i < r.len() && all.contains(r[i]) && !seen.contains(r[i]) && forall|j: int|
                0 <= j < i ==> !(all.contains(r[j]) && !seen.contains(r[j])),
    decreases w,
{
    if exists|j: int| 0 <= j < w && all.contains(r[j]) && !seen.contains(r[j]) {
        let j = choose|j: int| 0 <= j < w && all.contains(r[j]) && !seen.contains(r[j]);
        lemma_least_fresh(r, all, seen, j);
    } else {
        assert(forall|j: int| 0 <= j < w ==> !(all.contains(r[j]) && !seen.contains(r[j])));
    }
}

/// A walk that gets stuck stays stuck.
proof fn lemma_walk_stuck(n: int, all: Set<Coordinate>, start: Coordinate, k: nat, k2: nat)
    requires
        walk(n, all, start, k) is None,
        k <= k2,
    ensures
        walk(n, all, start, k2) is None,
    decreases k2,
{
    if k < k2 {
        lemma_walk_stuck(n, all, start, k, (k2 - 1) as nat);
    }
}

/// Every cell of a walk from a valid cell is valid.
proof fn lemma_walk_valid(n: int, all: Set<Coordinate>, start: Coordinate, k: nat)
    requires
        fits(n),
        valid_coord(n, start),
    ensures
        walk(n, all, start, k) is Some ==> forall|i: int| 0 <= i < walk(n, all, start, k)->0.len() ==> valid_coord(n, #[trigger] walk(n, all, start, k)->0[i]),
        walk(n, all, start, k) is Some ==> walk(n, all, start, k)->0.len() == k + 1,
    decreases k,
{
    if k > 0 {
        lemma_walk_valid(n, all, start, (k - 1) as nat);
        if let Some(w) = walk(n, all, start, (k - 1) as nat) {
            lemma_ring_shape(n, w.last());
            let r = ring_of(n, w.last());
            let i = first_fresh(r, all, w);
            if i >= 0 {
                let c = choose|c: int|
                    0 <= c < r.len() && all.contains(r[c]) && !w.contains(r[c]) && forall|j: int|
                        0 <= j < c ==> !(all.contains(r[j]) && !w.contains(r[j]));
                assert(valid_coord(n, r[i]));
            }
        }
    }
}

/// Whether `a` and `b` are neighbours, read from either ring.
pub open spec fn adjacent(n: int, a: Coordinate, b: Coordinate) -> bool {
    ring_of(n, a).contains(b) || ring_of(n, b).contains(a)
}

/// Each step of a walk goes to a neighbour of the cell before it, and a
/// walk visits distinct cells of `all`.
#[verifier::spinoff_prover]
#[verifier::rlimit(50)]
proof fn lemma_walk_steps(n: int, all: Set<Coordinate>, start: Coordinate, k: nat)
    requires
        all.contains(start),
        walk(n, all, start, k) is Some,
    ensures
        ({
            let w = walk(n, all, start, k)->0;
            &&& w.len() == k + 1
            &&& w[0] == start
            &&& w.no_duplicates()
            &&& forall|i: int| 0 <= i < w.len() ==> all.contains(#[trigger] w[i])
            &&& forall|i: int| 0 <= i < w.len() - 1 ==> ring_of(n, w[i]).contains(#[trigger] w[i + 1])
        }),
    decreases k,
{
    if k > 0 {
        lemma_walk_steps(n, all, start, (k - 1) as nat);
        let w = walk(n, all, start, (k - 1) as nat)->0;
        let r = ring_of(n, w.last());
        let i = first_fresh(r, all, w);
        assert(walk(n, all, start, k) == (if i >= 0 { Some(w.push(r[i])) } else { None::<Seq<Coordinate>> }));
        assert(i >= 0);
        lemma_first_fresh(r, all, w);
        let v = r[i];
        let w2 = w.push(v);
        assert(r.contains(v));
        assert forall|a: int| 0 <= a < w2.len() - 1 implies ring_of(n, w2[a]).contains(#[trigger] w2[a + 1]) by {
            if a < w.len() - 1 {
                assert(w2[a] == w[a] && w2[a + 1] == w[a + 1]);
            } else {
                assert(w2[a] == w.last());
                assert(w2[a + 1] == v);
            }
        }
        assert forall|a: int, b: int| 0 <= a < b < w2.len() implies w2[a] != w2[b] by {
            if b == w.len() {
                assert(w2[a] == w[a]);
                assert(w.contains(w[a]));
            } else {
                assert(w2[a] == w[a] && w2[b] == w[b]);
            }
        }
        assert forall|a: int| 0 <= a < w2.len() implies all.contains(#[trigger] w2[a]) by {
            if a < w.len() {
                assert(w2[a] == w[a]);
            }
        }
    }
}

/// After a successful ring ordering the cells are those given, each once;
/// consecutive cells are neighbours, the last is a neighbour of the first,
/// and the winding test passes on the first two cells, or failed on the
/// last two (the order was reversed).
pub proof fn lemma_ring_order_shape(n: int, coords: Seq<Coordinate>, inside: Set<Coordinate>)
    requires
        coords.no_duplicates(),
        ordered_ring(n, coords, inside) is Some,
    ensures
        ({
            let r = ordered_ring(n, coords, inside)->0;
            let l = r.len() as int;
            &&& l == coords.len()
            &&& l >= 2
            &&& r.no_duplicates()
            &&& r.to_set() == coords.to_set()
            &&& forall|i: int| 0 <= i < l - 1 ==> adjacent(n, #[trigger] r[i], r[i + 1])
            &&& adjacent(n, r[l - 1], r[0])
            &&& (chirality_known(n, inside, r[0], r[1]) && outward(n, inside, r[0], r[1])) || (chirality_known(
                n,
                inside,
                r[l - 1],
                r[l - 2],
            ) && !outward(n, inside, r[l - 1], r[l - 2]))
        }),
{
    let all = coords.to_set();
    let k = (coords.len() - 1) as nat;
    assert(coords.contains(coords[0]));
    lemma_walk_steps(n, all, coords[0], k);
    let w = walk(n, all, coords[0], k)->0;
    lemma_full_walk(w, coords);
    if !outward(n, inside, w[0], w[1]) {
        lemma_reverse_walk(n, w);
    }
}

/// A duplicate-free walk as long as the duplicate-free cells it walks through
/// visits all of them.
proof fn lemma_full_walk(w: Seq<Coordinate>, coords: Seq<Coordinate>)
    requires
        w.no_duplicates(),
        coords.no_duplicates(),
        w.len() == coords.len(),
        forall|i: int| 0 <= i < w.len() ==> coords.to_set().contains(#[trigger] w[i]),
    ensures
        w.to_set() == coords.to_set(),
{
    w.unique_seq_to_set();
    coords.unique_seq_to_set();
    assert(w.to_set().subset_of(coords.to_set())) by {
        assert forall|x: Coordinate| w.to_set().contains(x) implies coords.to_set().contains(x) by {
            let i = choose|i: int| 0 <= i < w.len() && w[i] == x;
        }
    }
    if !coords.to_set().subset_of(w.to_set()) {
        let x = choose|x: Coordinate| coords.to_set().contains(x) && !w.to_set().contains(x);
        vstd::seq_lib::seq_to_set_is_finite(coords);
        assert forall|y: Coordinate| w.to_set().contains(y) implies coords.to_set().remove(x).contains(y) by {
            assert(coords.to_set().contains(y));
            assert(y != x);
        }
        vstd::set_lib::lemma_len_subset(w.to_set(), coords.to_set().remove(x));
    }
    assert(w.to_set() =~= coords.to_set());
}

/// Reversing a walk keeps its cells and turns each step around.
proof fn lemma_reverse_walk(n: int, w: Seq<Coordinate>)
    requires
        w.len() >= 2,
        w.no_duplicates(),
        forall|i: int| 0 <= i < w.len() - 1 ==> ring_of(n, w[i]).contains(#[trigger] w[i + 1]),
    ensures
        ({
            let r = w.reverse();
            let l = w.len() as int;
            &&& r.len() == l
            &&& r[l - 1] == w[0] && r[l - 2] == w[1] && r[0] == w[l - 1]
            &&& r.no_duplicates()
            &&& r.to_set() == w.to_set()
            &&& forall|i: int| 0 <= i < l - 1 ==> adjacent(n, #[trigger] r[i], r[i + 1])
        }),
{
    let r = w.reverse();
    let l = w.len() as int;
    assert forall|i: int| 0 <= i < l - 1 implies adjacent(n, #[trigger] r[i], r[i + 1]) by {
        assert(r[i] == w[l - 1 - i] && r[i + 1] == w[l - 2 - i]);
        assert(ring_of(n, w[l - 2 - i]).contains(w[(l - 2 - i) + 1]));
    }
    assert forall|a: int, b: int| 0 <= a < b < l implies r[a] != r[b] by {
        assert(r[a] == w[l - 1 - a] && r[b] == w[l - 1 - b]);
    }
    assert forall|x: Coordinate| r.contains(x) <==> w.contains(x) by {
        if r.contains(x) {
            let i = choose|i: int| 0 <= i < l && r[i] == x;
            assert(w[l - 1 - i] == x);
        }
        if w.contains(x) {
            let i = choose|i: int| 0 <= i < l && w[i] == x;
            assert(r[l - 1 - i] == x);
        }
    }
    assert(r.to_set() =~= w.to_set());
}

/// What a sequence holds after a push.
proof fn lemma_push_contains(s: Seq<Coordinate>, v: Coordinate)
    ensures
        forall|x: Coordinate| #[trigger] s.push(v).contains(x) <==> (s.contains(x) || x == v),
{
    assert forall|x: Coordinate| #[trigger] s.push(v).contains(x) <==> (s.contains(x) || x == v) by {
        if s.contains(x) {
            let k = choose|k: int| 0 <= k < s.len() && s[k] == x;
            assert(s.push(v)[k] == x);
        }
        if x == v {
            assert(s.push(v)[s.len() as int] == x);
        }
        if s.push(v).contains(x) {
            let k = choose|k: int| 0 <= k < s.push(v).len() && s.push(v)[k] == x;
            if k < s.len() {
                assert(s[k] == x);
            }
        }
    }
}

/// A walk inside a part stays inside it when the part grows by `y`.
proof fn lemma_linked_grow(n: int, part: Seq<Coordinate>, a: Coordinate, b: Coordinate, y: Coordinate)
    requires
        linked(n, part, a, b),
    ensures
        linked(n, part.push(y), a, b),
{
    let path = choose|path: Seq<Coordinate>| #[trigger] is_path(n, part, path) && path[0] == a && path.last() == b;
    lemma_push_contains(part, y);
    assert(is_path(n, part.push(y), path));
}

/// A walk to a cell extends to a neighbour of it that joins the part.
proof fn lemma_linked_step(n: int, part: Seq<Coordinate>, a: Coordinate, b: Coordinate, y: Coordinate)
    requires
        linked(n, part, a, b),
        ring_of(n, b).contains(y),
    ensures
        linked(n, part.push(y), a, y),
{
    let path = choose|path: Seq<Coordinate>| #[trigger] is_path(n, part, path) && path[0] == a && path.last() == b;
    lemma_push_contains(part, y);
    let p2 = path.push(y);
    assert forall|k: int| 0 <= k < p2.len() implies part.push(y).contains(#[trigger] p2[k]) by {
        if k < path.len() {
            assert(p2[k] == path[k]);
            assert(part.contains(path[k]));
        }
    }
    assert forall|k: int| 0 <= k < p2.len() - 1 implies ring_of(n, #[trigger] p2[k]).contains(p2[k + 1]) by {
        if k < path.len() - 1 {
            assert(p2[k] == path[k] && p2[k + 1] == path[k + 1]);
        } else {
            assert(p2[k] == b);
        }
    }
    assert(is_path(n, part.push(y), p2));
}

/// A neighbour in `all` of a cell that remains has not gone into a closed part.
proof fn lemma_neighbour_remains(
    n: int,
    all: Set<Coordinate>,
    remaining: Seq<Coordinate>,
    parts: Seq<Blob>,
    next: Coordinate,
    i: int,
)
    requires
        fits(n),
        valid_coord(n, next),
        0 <= i < ring_of(n, next).len(),
        all.contains(ring_of(n, next)[i]),
        all.contains(next),
        remaining.contains(next),
        forall|x: Coordinate| all.contains(x) ==> (remaining.contains(x) || exists|b: int| 0 <= b < parts.len() && #[trigger] parts[b].contents@.contains(x)),
        forall|b: int, x: Coordinate| 0 <= b < parts.len() && #[trigger] parts[b].contents@.contains(x) ==> !remaining.contains(x),
        forall|b: int| 0 <= b < parts.len() ==> closed_in(n, all, #[trigger] parts[b].contents@),
    ensures
        remaining.contains(ring_of(n, next)[i]),
{
    let around = ring_of(n, next)[i];
    if !remaining.contains(around) {
        let b = choose|b: int| 0 <= b < parts.len() && #[trigger] parts[b].contents@.contains(around);
        lemma_ring_symmetric(n, next, i);
        let k = choose|k: int| 0 <= k < ring_of(n, around).len() && ring_of(n, around)[k] == next;
        assert(closed_in(n, all, parts[b].contents@));
        assert(parts[b].contents@.contains(ring_of(n, around)[k]));
    }
}

/// A duplicate-free sequence within a duplicate-free sequence is no longer.
proof fn lemma_sub_len(a: Seq<Coordinate>, b: Seq<Coordinate>)
    requires
        a.no_duplicates(),
        b.no_duplicates(),
        forall|x: Coordinate| a.contains(x) ==> b.contains(x),
    ensures
        a.len() <= b.len(),
{
    a.unique_seq_to_set();
    b.unique_seq_to_set();
    assert(a.to_set().subset_of(b.to_set()));
    vstd::set_lib::lemma_len_subset(a.to_set(), b.to_set());
}

impl Chunked {
    /// Whether `x` has a neighbour outside `all`.
    fn borders_outside(self, x: Coordinate, all: &Vec<Coordinate>) -> (r: bool)
        requires
            self.wf(),
            valid_coord(self.n(), x),
        ensures
            r == on_border(self.n(), all@.to_set(), x),
    {
        let ring = self.ring(x);
        let mut j: usize = 0;
        while j < ring.len()
            invariant
                ring@ == ring_of(self.n(), x),
                0 <= j <= ring@.len(),
                forall|i: int| 0 <= i < j ==> all@.to_set().contains(#[trigger] ring@[i]),
            decreases ring@.len() - j,
        {
            if !holds(all, ring[j]) {
                assert(!all@.to_set().contains(ring@[j as int]));
                return true;
            }
            j = j + 1;
        }
        false
    }

    /// Groups the cells into maximal connected parts, each with its border:
    /// the cells with a neighbour outside the given cells.
    pub fn find_blobs(self, coords: &[Coordinate]) -> (r: Option<Vec<Blob>>)
        requires
            self.wf(),
            forall|i: int| 0 <= i < coords@.len() ==> valid_coord(self.n(), #[trigger] coords@[i]),
        ensures
            match r {
                Some(blobs) => is_partition(self.n(), coords@.to_set(), blobs@),
                None => false,
            },
    {
        let ghost n = self.n();
        // The cells, each once.
        let mut all: Vec<Coordinate> = Vec::new();
        let mut i: usize = 0;
        while i < coords.len()
            invariant
                0 <= i <= coords@.len(),
                all@.no_duplicates(),
                forall|x: Coordinate| all@.contains(x) <==> exists|j: int| 0 <= j < i && coords@[j] == x,
            decreases coords@.len() - i,
        {
            let x = coords[i];
            let ghost old_all = all@;
            if !holds(&all, x) {
                all.push(x);
                proof {
                    lemma_push_contains(old_all, x);
                }
            }
            proof {
                assert forall|y: Coordinate| all@.contains(y) <==> exists|j: int| 0 <= j < i + 1 && coords@[j] == y by {
                    if y == x {
                        assert(coords@[i as int] == y);
                    } else {
                        assert(all@.contains(y) == old_all.contains(y));
                        if exists|j: int| 0 <= j < i + 1 && coords@[j] == y {
                            let j = choose|j: int| 0 <= j < i + 1 && coords@[j] == y;
                            assert(j < i);
                        }
                    }
                }
            }
            i = i + 1;
        }
        let ghost aset = all@.to_set();
        proof {
            assert forall|x: Coordinate| aset.contains(x) <==> coords@.to_set().contains(x) by {
                if coords@.contains(x) {
                    let j = choose|j: int| 0 <= j < coords@.len() && coords@[j] == x;
                }
            }
            assert(aset =~= coords@.to_set());
        }
        let mut remaining: Vec<Coordinate> = all.clone();
        let mut yielded: Vec<Blob> = Vec::new();
        while remaining.len() > 0
            invariant
                self.wf(),
                n == self.n(),
                aset == all@.to_set(),
                aset == coords@.to_set(),
                forall|x: Coordinate| aset.contains(x) ==> valid_coord(n, x),
                remaining@.no_duplicates(),
                forall|x: Coordinate| remaining@.contains(x) ==> aset.contains(x),
                forall|x: Coordinate| aset.contains(x) <==> (remaining@.contains(x) || exists|b: int| 0 <= b < yielded@.len() && #[trigger] yielded@[b].contents@.contains(x)),
                forall|b: int, x: Coordinate| 0 <= b < yielded@.len() && #[trigger] yielded@[b].contents@.contains(x) ==> !remaining@.contains(x),
                forall|b: int| 0 <= b < yielded@.len() ==> (#[trigger] yielded@[b].contents@).no_duplicates() && yielded@[b].contents@.len() > 0,
                forall|b1: int, b2: int, x: Coordinate|
                    0 <= b1 < yielded@.len() && 0 <= b2 < yielded@.len() && b1 != b2 && #[trigger] yielded@[b1].contents@.contains(x) ==> !#[trigger] yielded@[b2].contents@.contains(x),
                forall|b: int, x: Coordinate|
                    0 <= b < yielded@.len() ==> (#[trigger] yielded@[b].borders@.contains(x) <==> (yielded@[b].contents@.contains(x) && on_border(n, aset, x))),
                forall|b: int| 0 <= b < yielded@.len() ==> (#[trigger] yielded@[b].borders@).no_duplicates(),
                forall|b: int| 0 <= b < yielded@.len() ==> closed_in(n, aset, #[trigger] yielded@[b].contents@),
                forall|b: int, x: Coordinate|
                    0 <= b < yielded@.len() && #[trigger] yielded@[b].contents@.contains(x) ==> linked(n, yielded@[b].contents@, yielded@[b].contents@[0], x),
            decreases remaining@.len(),
        {
            let first = remaining[0];
            let mut to_explore: Vec<Coordinate> = vec![first];
            let mut contents: Vec<Coordinate> = vec![first];
            let mut bordered: Vec<Coordinate> = Vec::new();
            proof {
                assert(remaining@.contains(first));
                assert(contents@.contains(first));
                let p0 = seq![first];
                assert(is_path(n, contents@, p0));
                assert forall|x: Coordinate| #[trigger] contents@.contains(x) implies linked(n, contents@, first, x) by {
                    assert(contents@[0] == x);
                    assert(p0.last() == x);
                }
            }
            while to_explore.len() > 0
                invariant
                    self.wf(),
                    n == self.n(),
                    aset == all@.to_set(),
                    forall|x: Coordinate| aset.contains(x) ==> valid_coord(n, x),
                    remaining@.no_duplicates(),
                    contents@.no_duplicates(),
                    to_explore@.no_duplicates(),
                    contents@.contains(first),
                    forall|x: Coordinate| remaining@.contains(x) ==> aset.contains(x),
                    forall|x: Coordinate| contents@.contains(x) ==> remaining@.contains(x),
                    forall|x: Coordinate| to_explore@.contains(x) ==> contents@.contains(x),
                    bordered@.no_duplicates(),
                    forall|x: Coordinate| bordered@.contains(x) <==> (contents@.contains(x) && !to_explore@.contains(x) && on_border(n, aset, x)),
                    forall|x: Coordinate| aset.contains(x) ==> (remaining@.contains(x) || exists|b: int| 0 <= b < yielded@.len() && #[trigger] yielded@[b].contents@.contains(x)),
                    forall|b: int, x: Coordinate| 0 <= b < yielded@.len() && #[trigger] yielded@[b].contents@.contains(x) ==> !remaining@.contains(x),
                    forall|b: int| 0 <= b < yielded@.len() ==> closed_in(n, aset, #[trigger] yielded@[b].contents@),
                    forall|x: Coordinate, i: int|
                        contents@.contains(x) && !to_explore@.contains(x) && 0 <= i < ring_of(n, x).len() && aset.contains(#[trigger] ring_of(n, x)[i])
                            ==> contents@.contains(ring_of(n, x)[i]),
                    contents@.len() > 0 && contents@[0] == first,
                    forall|x: Coordinate| #[trigger] contents@.contains(x) ==> linked(n, contents@, first, x),
                decreases remaining@.len() - contents@.len(), to_explore@.len(),
            {
                proof {
                    lemma_sub_len(contents@, remaining@);
                }
                let ghost old_contents = contents@;
                let ghost old_explore = to_explore@;
                let next = to_explore.pop().unwrap();
                proof {
                    assert(old_explore.last() == next);
                    assert(old_explore == to_explore@.push(next));
                    assert(!to_explore@.contains(next)) by {
                        if to_explore@.contains(next) {
                            let k = choose|k: int| 0 <= k < to_explore@.len() && to_explore@[k] == next;
                            assert(old_explore[k] == old_explore[old_explore.len() - 1]);
                        }
                    }
                    assert(contents@.contains(next));
                    assert(remaining@.contains(next));
                }
                let ring = self.ring(next);
                let ghost mid_explore = to_explore@;
                let mut j: usize = 0;
                while j < ring.len()
                    invariant
                        self.wf(),
                        n == self.n(),
                        ring@ == ring_of(n, next),
                        0 <= j <= ring@.len(),
                        remaining@.no_duplicates(),
                        contents@.no_duplicates(),
                        to_explore@.no_duplicates(),
                        contents@.contains(first),
                        contents@.contains(next),
                        forall|x: Coordinate| aset.contains(x) ==> valid_coord(n, x),
                        forall|x: Coordinate| remaining@.contains(x) ==> aset.contains(x),
                        !to_explore@.contains(next),
                        old_contents.len() <= contents@.len(),
                        contents@.len() - old_contents.len() == to_explore@.len() - mid_explore.len(),
                        forall|x: Coordinate| old_contents.contains(x) ==> contents@.contains(x),
                        forall|x: Coordinate| contents@.contains(x) ==> remaining@.contains(x),
                        forall|x: Coordinate| to_explore@.contains(x) ==> contents@.contains(x),
                        forall|x: Coordinate| mid_explore.contains(x) ==> to_explore@.contains(x),
                        forall|x: Coordinate| (to_explore@.contains(x) && !mid_explore.contains(x)) ==> !old_contents.contains(x),
                        forall|x: Coordinate| contents@.contains(x) && !old_contents.contains(x) ==> to_explore@.contains(x),
                        aset.contains(next),
                        remaining@.contains(next),
                        forall|x: Coordinate| aset.contains(x) ==> (remaining@.contains(x) || exists|b: int| 0 <= b < yielded@.len() && #[trigger] yielded@[b].contents@.contains(x)),
                        forall|b: int, x: Coordinate| 0 <= b < yielded@.len() && #[trigger] yielded@[b].contents@.contains(x) ==> !remaining@.contains(x),
                        forall|b: int| 0 <= b < yielded@.len() ==> closed_in(n, aset, #[trigger] yielded@[b].contents@),
                        forall|i: int| 0 <= i < j ==> aset.contains(#[trigger] ring@[i]) ==> contents@.contains(ring@[i]),
                        contents@.len() > 0 && contents@[0] == first,
                        forall|x: Coordinate| #[trigger] contents@.contains(x) ==> linked(n, contents@, first, x),
                    decreases ring@.len() - j,
                {
                    let around = ring[j];
                    proof {
                        if aset.contains(around) {
                            lemma_neighbour_remains(n, aset, remaining@, yielded@, next, j as int);
                        }
                    }
                    if holds(&remaining, around) && !holds(&contents, around) {
                        proof {
                            assert(around != next);
                        }
                        let ghost c0 = contents@;
                        let ghost e0 = to_explore@;
                        to_explore.push(around);
                        contents.push(around);
                        proof {
                            lemma_push_contains(c0, around);
                            lemma_push_contains(e0, around);
                            assert(c0.contains(next));
                            assert(ring@.contains(around)) by {
                                assert(ring@[j as int] == around);
                            }
                            assert forall|x: Coordinate| #[trigger] contents@.contains(x) implies linked(n, contents@, first, x) by {
                                if x == around {
                                    lemma_linked_step(n, c0, first, next, around);
                                } else {
                                    assert(c0.contains(x));
                                    lemma_linked_grow(n, c0, first, x, around);
                                }
                            }
                            assert(contents@[0] == c0[0]);
                        }
                    }
                    j = j + 1;
                }
                let ghost pre_border = bordered@;
                if self.borders_outside(next, &all) {
                    bordered.push(next);
                    proof {
                        lemma_push_contains(pre_border, next);
                        assert(!pre_border.contains(next));
                        assert forall|a: int, b: int| 0 <= a < b < bordered@.len() implies bordered@[a] != bordered@[b] by {
                            if b == bordered@.len() - 1 {
                                assert(pre_border.contains(bordered@[a]));
                            }
                        }
                    }
                }
                proof {
                    lemma_sub_len(contents@, remaining@);
                    assert(mid_explore.len() == old_explore.len() - 1);
                    assert(remaining@.len() - old_contents.len() >= 0);
                    if contents@.len() == old_contents.len() {
                        assert(to_explore@.len() < old_explore.len());
                    } else {
                        assert(remaining@.len() - contents@.len() < remaining@.len() - old_contents.len());
                    }
                    assert forall|x: Coordinate, i: int|
                        contents@.contains(x) && !to_explore@.contains(x) && 0 <= i < ring_of(n, x).len() && aset.contains(#[trigger] ring_of(n, x)[i])
                            implies contents@.contains(ring_of(n, x)[i]) by {
                        if x == next {
                            assert(aset.contains(ring@[i]));
                        } else {
                            if !old_contents.contains(x) {
                                assert(to_explore@.contains(x));
                            }
                            assert(!mid_explore.contains(x));
                            assert(!old_explore.contains(x)) by {
                                if old_explore.contains(x) {
                                    let k = choose|k: int| 0 <= k < old_explore.len() && old_explore[k] == x;
                                    if k < mid_explore.len() {
                                        assert(mid_explore[k] == x);
                                    }
                                }
                            }
                            assert(old_contents.contains(ring_of(n, x)[i]));
                        }
                    }
                    assert forall|x: Coordinate| bordered@.contains(x) <==> (contents@.contains(x) && !to_explore@.contains(x) && on_border(n, aset, x)) by {
                        if x == next {
                        } else {
                            assert(bordered@.contains(x) <==> pre_border.contains(x));
                            if contents@.contains(x) && !old_contents.contains(x) {
                                assert(to_explore@.contains(x));
                            }
                            if old_contents.contains(x) && !old_explore.contains(x) {
                                assert(!to_explore@.contains(x));
                            }
                            if old_explore.contains(x) {
                                assert(x != next ==> mid_explore.contains(x));
                            }
                        }
                    }
                }
            }
            // Take the part out of what remains.
            let ghost old_remaining = remaining@;
            let mut rest: Vec<Coordinate> = Vec::new();
            let mut k: usize = 0;
            while k < remaining.len()
                invariant
                    0 <= k <= remaining@.len(),
                    remaining@ == old_remaining,
                    remaining@.no_duplicates(),
                    rest@.no_duplicates(),
                    forall|x: Coordinate| rest@.contains(x) <==> (exists|j: int| 0 <= j < k && remaining@[j] == x) && !contents@.contains(x),
                decreases remaining@.len() - k,
            {
                let x = remaining[k];
                if !holds(&contents, x) {
                    proof {
                        assert(!rest@.contains(x)) by {
                            if rest@.contains(x) {
                                let j = choose|j: int| 0 <= j < k && remaining@[j] == x;
                            }
                        }
                    }
                    let ghost r0 = rest@;
                    rest.push(x);
                    proof {
                        lemma_push_contains(r0, x);
                    }
                }
                proof {
                    assert forall|y: Coordinate| rest@.contains(y) <==> (exists|j: int| 0 <= j < k + 1 && remaining@[j] == y) && !contents@.contains(y) by {
                        if y == x {
                            assert(remaining@[k as int] == y);
                        } else if exists|j: int| 0 <= j < k + 1 && remaining@[j] == y {
                            let j = choose|j: int| 0 <= j < k + 1 && remaining@[j] == y;
                            assert(j < k);
                        }
                    }
                }
                k = k + 1;
            }
            proof {
                assert forall|x: Coordinate| rest@.contains(x) <==> (old_remaining.contains(x) && !contents@.contains(x)) by {
                    if old_remaining.contains(x) {
                        let j = choose|j: int| 0 <= j < old_remaining.len() && old_remaining[j] == x;
                    }
                }
                lemma_sub_len(rest@, old_remaining);
                if rest@.len() == old_remaining.len() {
                    // Then every remaining cell stayed, `first` among them.
                    assert(!rest@.contains(first));
                    rest@.unique_seq_to_set();
                    old_remaining.unique_seq_to_set();
                    assert(rest@.to_set().subset_of(old_remaining.to_set()));
                    assert(!rest@.to_set().contains(first));
                    assert(old_remaining.to_set().contains(first));
                    vstd::set_lib::lemma_len_subset(rest@.to_set(), old_remaining.to_set().remove(first));
                }
            }
            remaining = rest;
            let ghost old_yielded = yielded@;
            yielded.push(Blob { contents, borders: bordered });
            proof {
                let nb = yielded@.len() - 1;
                assert(yielded@[nb].contents@.contains(first));
                assert forall|x: Coordinate| aset.contains(x) <==> (remaining@.contains(x) || exists|b: int| 0 <= b < yielded@.len() && #[trigger] yielded@[b].contents@.contains(x)) by {
                    if aset.contains(x) && !remaining@.contains(x) {
                        if old_remaining.contains(x) {
                            assert(yielded@[nb].contents@.contains(x));
                        } else {
                            let b = choose|b: int| 0 <= b < old_yielded.len() && #[trigger] old_yielded[b].contents@.contains(x);
                            assert(yielded@[b] == old_yielded[b]);
                        }
                    }
                    if exists|b: int| 0 <= b < yielded@.len() && #[trigger] yielded@[b].contents@.contains(x) {
                        let b = choose|b: int| 0 <= b < yielded@.len() && #[trigger] yielded@[b].contents@.contains(x);
                        if b < nb {
                            assert(yielded@[b] == old_yielded[b]);
                        }
                    }
                }
                assert forall|b1: int, b2: int, x: Coordinate|
                    0 <= b1 < yielded@.len() && 0 <= b2 < yielded@.len() && b1 != b2 && #[trigger] yielded@[b1].contents@.contains(x) implies !#[trigger] yielded@[b2].contents@.contains(x) by {
                    if b1 < nb {
                        assert(yielded@[b1] == old_yielded[b1]);
                    }
                    if b2 < nb {
                        assert(yielded@[b2] == old_yielded[b2]);
                    }
                }
                assert forall|b: int, x: Coordinate| 0 <= b < yielded@.len() && #[trigger] yielded@[b].contents@.contains(x) implies !remaining@.contains(x) by {
                    if b < nb {
                        assert(yielded@[b] == old_yielded[b]);
                    }
                }
                assert forall|b: int| 0 <= b < yielded@.len() implies (#[trigger] yielded@[b].contents@).no_duplicates() && yielded@[b].contents@.len() > 0 by {
                    if b < nb {
                        assert(yielded@[b] == old_yielded[b]);
                    }
                }
                assert forall|b: int, x: Coordinate|
                    0 <= b < yielded@.len() implies (#[trigger] yielded@[b].borders@.contains(x) <==> (yielded@[b].contents@.contains(x) && on_border(n, aset, x))) by {
                    if b < nb {
                        assert(yielded@[b] == old_yielded[b]);
                    }
                }
            }
        }
        Some(yielded)
    }

    /// The walk of `steps` steps from `start` through the cells of `all`.
    fn walk_through(self, all: &Vec<Coordinate>, start: Coordinate, steps: usize) -> (r: Option<Vec<Coordinate>>)
        requires
            self.wf(),
            valid_coord(self.n(), start),
        ensures
            match r {
                Some(w) => walk(self.n(), all@.to_set(), start, steps as nat) == Some(w@),
                None => walk(self.n(), all@.to_set(), start, steps as nat) is None,
            },
    {
        let ghost n = self.n();
        let ghost aset = all@.to_set();
        let mut ordered: Vec<Coordinate> = vec![start];
        let mut current = start;
        let mut k: usize = 0;
        while k < steps
            invariant
                self.wf(),
                n == self.n(),
                aset == all@.to_set(),
                0 <= k <= steps,
                walk(n, aset, start, k as nat) == Some(ordered@),
                ordered@.len() == k + 1,
                current == ordered@.last(),
                valid_coord(n, current),
            decreases steps - k,
        {
            let ring = self.ring(current);
            proof {
                lemma_ring_shape(n, current);
            }
            match first_fresh_in(&ring, all, &ordered) {
                None => {
                    proof {
                        lemma_walk_stuck(n, aset, start, (k + 1) as nat, steps as nat);
                    }
                    return None;
                },
                Some(j) => {
                    let x = ring[j];
                    ordered.push(x);
                    current = x;
                    proof {
                        lemma_ring_shape(n, ring@[j as int]);
                    }
                },
            }
            k = k + 1;
        }
        Some(ordered)
    }

    /// Puts the cells of a closed ring in walk order, winding outward from
    /// the cells of `inside`. Returns false, and leaves the cells as they
    /// are, where the walk gets stuck, does not close, or the winding cannot
    /// be told.
    pub fn ring_order(self, coordinates: &mut Vec<Coordinate>, inside: &Vec<Coordinate>) -> (r: bool)
        requires
            self.wf(),
            old(coordinates)@.no_duplicates(),
            forall|i: int| 0 <= i < old(coordinates)@.len() ==> valid_coord(self.n(), #[trigger] old(coordinates)@[i]),
        ensures
            r == ordered_ring(self.n(), old(coordinates)@, inside@.to_set()) is Some,
            r ==> final(coordinates)@ == ordered_ring(self.n(), old(coordinates)@, inside@.to_set())->0,
            !r ==> final(coordinates)@ == old(coordinates)@,
    {
        let ghost n = self.n();
        let ghost iset = inside@.to_set();
        if coordinates.len() == 0 {
            return false;
        }
        let w = match self.walk_through(coordinates, coordinates[0], coordinates.len() - 1) {
            None => return false,
            Some(w) => w,
        };
        if w.len() < 2 {
            return false;
        }
        let first = w[0];
        let second = w[1];
        let last = w[w.len() - 1];
        proof {
            lemma_walk_valid(n, coordinates@.to_set(), coordinates@[0], (coordinates@.len() - 1) as nat);
            assert(coordinates@.contains(coordinates@[0]));
            assert(valid_coord(n, w@[0]) && valid_coord(n, w@[1]) && valid_coord(n, w@[w@.len() - 1]));
        }
        let last_ring = self.ring(last);
        proof {
            lemma_ring_shape(n, last);
        }
        if coord_position(last_ring.as_slice(), first).is_none() {
            return false;
        }
        // The first common neighbour of the first two cells outside the interior.
        let first_ring = self.ring(first);
        let second_ring = self.ring(second);
        proof {
            lemma_ring_shape(n, first);
            lemma_ring_shape(n, second);
        }
        let c = match first_shared_out_in(&first_ring, &second_ring, inside) {
            None => return false,
            Some(j) => second_ring[j],
        };
        proof {
            assert(valid_coord(n, c));
        }
        let out_ring = self.ring(c);
        proof {
            lemma_ring_shape(n, c);
        }
        let idx = match coord_position(out_ring.as_slice(), second) {
            None => return false,
            Some(idx) => idx,
        };
        let result = if first != out_ring[(idx + 1) % out_ring.len()] {
            let mut rev: Vec<Coordinate> = Vec::new();
            let mut k: usize = w.len();
            while k > 0
                invariant
                    0 <= k <= w@.len(),
                    rev@.len() == w@.len() - k,
                    forall|i: int| 0 <= i < rev@.len() ==> rev@[i] == w@[w@.len() - 1 - i],
                decreases k,
            {
                k = k - 1;
                rev.push(w[k]);
            }
            proof {
                assert(rev@ =~= w@.reverse());
            }
            rev
        } else {
            w
        };
        *coordinates = result;
        true
    }

    /// The border rings of a blob: its border cells split into connected
    /// parts, and the border of each part.
    pub fn blob_borders(self, blob: &Blob) -> (r: Option<Vec<Vec<Coordinate>>>)
        requires
            self.wf(),
            forall|i: int| 0 <= i < blob.borders@.len() ==> valid_coord(self.n(), #[trigger] blob.borders@[i]),
        ensures
            match r {
                Some(v) => exists|parts: Seq<Blob>|
                    #![trigger is_partition(self.n(), blob.borders@.to_set(), parts)]
                    is_partition(self.n(), blob.borders@.to_set(), parts) && v@.len() == parts.len() && forall|i: int|
                        0 <= i < v@.len() ==> (#[trigger] v@[i])@ == parts[i].borders@,
                None => false,
            },
    {
        match self.find_blobs(blob.borders.as_slice()) {
            None => None,
            Some(parts) => {
                let ghost gparts = parts@;
                let mut out: Vec<Vec<Coordinate>> = Vec::new();
                let mut parts = parts;
                // Taken from the back so that each part is moved, not copied.
                let mut rev: Vec<Vec<Coordinate>> = Vec::new();
                while parts.len() > 0
                    invariant
                        gparts.len() == parts@.len() + rev@.len(),
                        forall|i: int| 0 <= i < parts@.len() ==> parts@[i] == gparts[i],
                        forall|i: int| 0 <= i < rev@.len() ==> (#[trigger] rev@[i])@ == gparts[gparts.len() - 1 - i].borders@,
                    decreases parts@.len(),
                {
                    let b = parts.pop().unwrap();
                    rev.push(b.borders);
                }
                while rev.len() > 0
                    invariant
                        gparts.len() == out@.len() + rev@.len(),
                        forall|i: int| 0 <= i < rev@.len() ==> (#[trigger] rev@[i])@ == gparts[gparts.len() - 1 - i].borders@,
                        forall|i: int| 0 <= i < out@.len() ==> (#[trigger] out@[i])@ == gparts[i].borders@,
                    decreases rev@.len(),
                {
                    let b = rev.pop().unwrap();
                    out.push(b);
                }
                Some(out)
            },
        }
    }
}

} // verus!
