//! Cell coordinates and the neighbour rule of the chunked tiling.

use crate::ring::{coord_ring, coord_ring_from, Hexagonish};
use std::cmp::Ordering;
use vstd::prelude::*;

verus! {

/// Coordinate on a hexasphere.
#[derive(Copy, Clone, Debug, PartialEq, Eq, Hash, Structural)]
pub enum Coordinate {
    Top,
    Bottom,
    Inside {
        /// In `0..=4`.
        chunk: u8,
        /// In `0..subdiv + 1`.
        short: usize,
        /// In `0..(subdiv + 1) * 2`.
        long: usize,
    },
}

/// The order of cells: `Top` above every other cell, then `Bottom`, then the
/// inside cells by `(chunk, short, long)`.
pub open spec fn order_of(a: Coordinate, b: Coordinate) -> Ordering {
    match (a, b) {
        (Coordinate::Top, Coordinate::Top) => Ordering::Equal,
        (Coordinate::Top, _) => Ordering::Greater,
        (_, Coordinate::Top) => Ordering::Less,
        (Coordinate::Bottom, Coordinate::Bottom) => Ordering::Equal,
        (Coordinate::Bottom, _) => Ordering::Greater,
        (_, Coordinate::Bottom) => Ordering::Less,
        (
            Coordinate::Inside { chunk: c1, short: s1, long: l1 },
            Coordinate::Inside { chunk: c2, short: s2, long: l2 },
        ) => if c1 != c2 {
            if c1 < c2 {
                Ordering::Less
            } else {
                Ordering::Greater
            }
        } else if s1 != s2 {
            if s1 < s2 {
                Ordering::Less
            } else {
                Ordering::Greater
            }
        } else if l1 != l2 {
            if l1 < l2 {
                Ordering::Less
            } else {
                Ordering::Greater
            }
        } else {
            Ordering::Equal
        },
    }
}

/// Compares two numbers.
fn compare_usize(a: usize, b: usize) -> (r: Ordering)
    ensures
        r == (if a < b { Ordering::Less } else if a > b { Ordering::Greater } else { Ordering::Equal }),
{
    if a < b {
        Ordering::Less
    } else if a > b {
        Ordering::Greater
    } else {
        Ordering::Equal
    }
}

impl Coordinate {
    /// Compares two cells by `order_of`.
    pub fn cmp(&self, other: &Self) -> (r: Ordering)
        ensures
            r == order_of(*self, *other),
    {
        match (*self, *other) {
            (Coordinate::Top, Coordinate::Top) => Ordering::Equal,
            (Coordinate::Top, _) => Ordering::Greater,
            (_, Coordinate::Top) => Ordering::Less,
            (Coordinate::Bottom, Coordinate::Bottom) => Ordering::Equal,
            (Coordinate::Bottom, _) => Ordering::Greater,
            (_, Coordinate::Bottom) => Ordering::Less,
            (
                Coordinate::Inside { chunk: c1, short: s1, long: l1 },
                Coordinate::Inside { chunk: c2, short: s2, long: l2 },
            ) => match compare_usize(c1 as usize, c2 as usize) {
                Ordering::Equal => match compare_usize(s1, s2) {
                    Ordering::Equal => compare_usize(l1, l2),
                    x => x,
                },
                x => x,
            },
        }
    }
}

impl PartialOrd for Coordinate {
    fn partial_cmp(&self, other: &Self) -> (r: Option<Ordering>) {
        Some(self.cmp(other))
    }
}

impl vstd::std_specs::cmp::PartialOrdSpecImpl for Coordinate {
    open spec fn obeys_partial_cmp_spec() -> bool {
        true
    }

    open spec fn partial_cmp_spec(&self, other: &Self) -> Option<Ordering> {
        Some(order_of(*self, *other))
    }
}

/// Short form to create a `Coordinate`.
pub fn coord(chunk: u8, short: usize, long: usize) -> (r: Coordinate)
    ensures
        r == (Coordinate::Inside { chunk, short, long }),
{
    Coordinate::Inside { chunk, short, long }
}

/// The inside cell at `(c, s, l)`, taken from integers.
pub open spec fn cell(c: int, s: int, l: int) -> Coordinate {
    Coordinate::Inside { chunk: c as u8, short: s as usize, long: l as usize }
}

/// The largest subdivision count whose cells can all be counted in a `usize`.
pub open spec fn fits(n: int) -> bool {
    0 <= n && 10 * (n + 1) * (n + 1) + 2 <= usize::MAX
}

/// Whether `x` addresses a cell of a tiling with `n` subdivisions.
pub open spec fn valid_coord(n: int, x: Coordinate) -> bool {
    match x {
        Coordinate::Top | Coordinate::Bottom => true,
        Coordinate::Inside { chunk, short, long } => chunk < 5 && short <= n && long <= 2 * n + 1,
    }
}

/// The neighbour ring of `x`, in walk order, for a tiling with `n` subdivisions.
#[verifier::opaque]
pub open spec fn ring_of(n: int, x: Coordinate) -> Seq<Coordinate> {
    match x {
        Coordinate::Top => seq![cell(0, 0, 0), cell(1, 0, 0), cell(2, 0, 0), cell(3, 0, 0), cell(4, 0, 0)],
        Coordinate::Bottom => seq![
            cell(4, n, 2 * n + 1),
            cell(3, n, 2 * n + 1),
            cell(2, n, 2 * n + 1),
            cell(1, n, 2 * n + 1),
            cell(0, n, 2 * n + 1),
        ],
        Coordinate::Inside { chunk, short, long } => {
            let c = chunk as int;
            let s = short as int;
            let l = long as int;
            let prev = (c + 4) % 5;
            let next = (c + 1) % 5;
            if n == 0 {
                if l == 0 {
                    seq![Coordinate::Top, cell(prev, 0, 0), cell(prev, 0, 1), cell(c, 0, 1), cell(next, 0, 0)]
                } else {
                    seq![cell(c, 0, 0), cell(prev, 0, 1), Coordinate::Bottom, cell(next, 0, 1), cell(next, 0, 0)]
                }
            } else if s == n {
                if l == 0 {
                    seq![cell(c, s - 1, 0), cell(prev, 0, s), cell(prev, 0, s + 1), cell(c, s, 1), cell(c, s - 1, 1)]
                } else if l == n + 1 {
                    seq![cell(c, s, l - 1), cell(prev, 0, s + l), cell(c, s, l + 1), cell(c, s - 1, l + 1), cell(c, s - 1, l)]
                } else if l <= n {
                    seq![
                        cell(c, s, l - 1),
                        cell(prev, 0, s + l),
                        cell(prev, 0, s + l + 1),
                        cell(c, s, l + 1),
                        cell(c, s - 1, l + 1),
                        cell(c, s - 1, l),
                    ]
                } else if l <= 2 * n {
                    seq![
                        cell(c, s, l - 1),
                        cell(prev, l - n - 2, 2 * n + 1),
                        cell(prev, l - n - 1, 2 * n + 1),
                        cell(c, s, l + 1),
                        cell(c, s - 1, l + 1),
                        cell(c, s - 1, l),
                    ]
                } else {
                    seq![
                        cell(c, s, l - 1),
                        cell(prev, s - 1, l),
                        cell(prev, s, l),
                        Coordinate::Bottom,
                        cell(next, s, l),
                        cell(c, s - 1, l),
                    ]
                }
            } else if s == 0 {
                if l == 0 {
                    seq![
                        Coordinate::Top,
                        cell(prev, 0, 0),
                        cell(prev, 0, 1),
                        cell(c, 1, 0),
                        cell(c, 0, 1),
                        cell(next, 0, 0),
                    ]
                } else if l <= n {
                    seq![
                        cell(c, 0, l - 1),
                        cell(c, 1, l - 1),
                        cell(c, 1, l),
                        cell(c, 0, l + 1),
                        cell(next, l, 0),
                        cell(next, l - 1, 0),
                    ]
                } else if l <= 2 * n {
                    seq![
                        cell(c, 0, l - 1),
                        cell(c, 1, l - 1),
                        cell(c, 1, l),
                        cell(c, 0, l + 1),
                        cell(next, n, l - n),
                        cell(next, n, l - n - 1),
                    ]
                } else {
                    seq![
                        cell(c, 0, l - 1),
                        cell(c, 1, l - 1),
                        cell(c, 1, l),
                        cell(next, n, n + 2),
                        cell(next, n, n + 1),
                        cell(next, n, n),
                    ]
                }
            } else if l == 0 {
                seq![
                    cell(c, s - 1, 0),
                    cell(prev, 0, s),
                    cell(prev, 0, s + 1),
                    cell(c, s + 1, 0),
                    cell(c, s, 1),
                    cell(c, s - 1, 1),
                ]
            } else if l <= 2 * n {
                seq![
                    cell(c, s, l - 1),
                    cell(c, s + 1, l - 1),
                    cell(c, s + 1, l),
                    cell(c, s, l + 1),
                    cell(c, s - 1, l + 1),
                    cell(c, s - 1, l),
                ]
            } else {
                seq![
                    cell(c, s, l - 1),
                    cell(c, s + 1, l - 1),
                    cell(c, s + 1, l),
                    cell(next, n, n + 2 + s),
                    cell(next, n, n + 1 + s),
                    cell(c, s - 1, l),
                ]
            }
        },
    }
}

/// Whether `x` is one of the twelve five-sided cells.
pub open spec fn is_pentagon(n: int, x: Coordinate) -> bool {
    match x {
        Coordinate::Top | Coordinate::Bottom => true,
        Coordinate::Inside { short, long, .. } => short == n && (long == 0 || long == n + 1),
    }
}

/// Lexicographic order of inside cells by `(chunk, short, long)`.
pub open spec fn lex_lt(x: Coordinate, y: Coordinate) -> bool {
    match (x, y) {
        (
            Coordinate::Inside { chunk: c1, short: s1, long: l1 },
            Coordinate::Inside { chunk: c2, short: s2, long: l2 },
        ) => c1 < c2 || (c1 == c2 && (s1 < s2 || (s1 == s2 && l1 < l2))),
        _ => false,
    }
}

/// Number of cells of a tiling with `n` subdivisions.
pub open spec fn cell_count(n: int) -> int {
    10 * (n + 1) * (n + 1) + 2
}

/// The two poles first, then the inside cells in increasing `(chunk, short, long)` order.
pub open spec fn enumerated(n: int, r: Seq<Coordinate>) -> bool {
    &&& r.len() >= 2
    &&& r[0] == Coordinate::Top
    &&& r[1] == Coordinate::Bottom
    &&& forall|i: int, j: int| 2 <= i < j < r.len() ==> lex_lt(#[trigger] r[i], #[trigger] r[j])
}

/// The addressing scheme of a tiling with a given number of subdivisions.
#[derive(Copy, Clone, Debug, PartialEq, Eq, Hash, Structural)]
pub struct Chunked {
    subdivisions: usize,
}

impl Chunked {
    /// The number of subdivisions.
    pub closed spec fn n(self) -> int {
        self.subdivisions as int
    }

    /// Every cell of the tiling can be counted in a `usize`.
    pub open spec fn wf(self) -> bool {
        fits(self.n())
    }

    /// The addressing scheme for `subdivisions` subdivisions.
    pub fn new(subdivisions: usize) -> (r: Chunked)
        requires
            fits(subdivisions as int),
        ensures
            r.n() == subdivisions,
            r.wf(),
    {
        Chunked { subdivisions }
    }

    pub fn subdivisions(self) -> (r: usize)
        ensures
            r == self.n(),
    {
        self.subdivisions
    }

    pub fn is_valid(self, coord: Coordinate) -> (r: bool)
        ensures
            r == valid_coord(self.n(), coord),
    {
        match coord {
            Coordinate::Top | Coordinate::Bottom => true,
            Coordinate::Inside { chunk, short, long } => {
                chunk < 5 && short <= self.subdivisions && long / 2 <= self.subdivisions
            },
        }
    }

    /// The neighbour ring of `x` as a vector, in walk order.
    pub(crate) fn ring(self, x: Coordinate) -> (r: Vec<Coordinate>)
        requires
            self.wf(),
            valid_coord(self.n(), x),
        ensures
            r@ == ring_of(self.n(), x),
    {
        let n = self.subdivisions;
        proof {
            lemma_fits_bound(self.n());
            reveal(ring_of);
        }
        match x {
            Coordinate::Top => vec![coord(0, 0, 0), coord(1, 0, 0), coord(2, 0, 0), coord(3, 0, 0), coord(4, 0, 0)],
            Coordinate::Bottom => vec![
                coord(4, n, 2 * n + 1),
                coord(3, n, 2 * n + 1),
                coord(2, n, 2 * n + 1),
                coord(1, n, 2 * n + 1),
                coord(0, n, 2 * n + 1),
            ],
            Coordinate::Inside { chunk, short, long } => {
                let c = chunk;
                let s = short;
                let l = long;
                let prev: u8 = (chunk + 4) % 5;
                let next: u8 = (chunk + 1) % 5;
                if n == 0 {
                    if l == 0 {
                        vec![Coordinate::Top, coord(prev, 0, 0), coord(prev, 0, 1), coord(c, 0, 1), coord(next, 0, 0)]
                    } else {
                        vec![coord(c, 0, 0), coord(prev, 0, 1), Coordinate::Bottom, coord(next, 0, 1), coord(next, 0, 0)]
                    }
                } else if s == n {
                    if l == 0 {
                        vec![coord(c, s - 1, 0), coord(prev, 0, s), coord(prev, 0, s + 1), coord(c, s, 1), coord(c, s - 1, 1)]
                    } else if l == n + 1 {
                        vec![coord(c, s, l - 1), coord(prev, 0, s + l), coord(c, s, l + 1), coord(c, s - 1, l + 1), coord(c, s - 1, l)]
                    } else if l <= n {
                        vec![
                            coord(c, s, l - 1),
                            coord(prev, 0, s + l),
                            coord(prev, 0, s + l + 1),
                            coord(c, s, l + 1),
                            coord(c, s - 1, l + 1),
                            coord(c, s - 1, l),
                        ]
                    } else if l <= 2 * n {
                        let d = l - n;
                        vec![
                            coord(c, s, l - 1),
                            coord(prev, d - 2, 2 * n + 1),
                            coord(prev, d - 1, 2 * n + 1),
                            coord(c, s, l + 1),
                            coord(c, s - 1, l + 1),
                            coord(c, s - 1, l),
                        ]
                    } else {
                        vec![
                            coord(c, s, l - 1),
                            coord(prev, s - 1, l),
                            coord(prev, s, l),
                            Coordinate::Bottom,
                            coord(next, s, l),
                            coord(c, s - 1, l),
                        ]
                    }
                } else if s == 0 {
                    if l == 0 {
                        vec![
                            Coordinate::Top,
                            coord(prev, 0, 0),
                            coord(prev, 0, 1),
                            coord(c, 1, 0),
                            coord(c, 0, 1),
                            coord(next, 0, 0),
                        ]
                    } else if l <= n {
                        vec![
                            coord(c, 0, l - 1),
                            coord(c, 1, l - 1),
                            coord(c, 1, l),
                            coord(c, 0, l + 1),
                            coord(next, l, 0),
                            coord(next, l - 1, 0),
                        ]
                    } else if l <= 2 * n {
                        let d = l - n;
                        vec![
                            coord(c, 0, l - 1),
                            coord(c, 1, l - 1),
                            coord(c, 1, l),
                            coord(c, 0, l + 1),
                            coord(next, n, d),
                            coord(next, n, d - 1),
                        ]
                    } else {
                        vec![
                            coord(c, 0, l - 1),
                            coord(c, 1, l - 1),
                            coord(c, 1, l),
                            coord(next, n, n + 2),
                            coord(next, n, n + 1),
                            coord(next, n, n),
                        ]
                    }
                } else if l == 0 {
                    vec![
                        coord(c, s - 1, 0),
                        coord(prev, 0, s),
                        coord(prev, 0, s + 1),
                        coord(c, s + 1, 0),
                        coord(c, s, 1),
                        coord(c, s - 1, 1),
                    ]
                } else if l <= 2 * n {
                    vec![
                        coord(c, s, l - 1),
                        coord(c, s + 1, l - 1),
                        coord(c, s + 1, l),
                        coord(c, s, l + 1),
                        coord(c, s - 1, l + 1),
                        coord(c, s - 1, l),
                    ]
                } else {
                    vec![
                        coord(c, s, l - 1),
                        coord(c, s + 1, l - 1),
                        coord(c, s + 1, l),
                        coord(next, n, n + 2 + s),
                        coord(next, n, n + 1 + s),
                        coord(c, s - 1, l),
                    ]
                }
            },
        }
    }

    /// Yields the coordinates surrounding a given coordinate, in walk order.
    pub fn surrounding(self, x: Coordinate) -> (r: Hexagonish<Coordinate>)
        requires
            self.wf(),
            valid_coord(self.n(), x),
        ensures
            coord_ring(r) == ring_of(self.n(), x),
            coord_ring(r).len() == (if is_pentagon(self.n(), x) { 5int } else { 6 }),
            forall|i: int| 0 <= i < coord_ring(r).len() ==> valid_coord(self.n(), #[trigger] coord_ring(r)[i]) && coord_ring(r)[i] != x,
    {
        proof {
            lemma_ring_shape(self.n(), x);
        }
        coord_ring_from(self.ring(x))
    }

    /// Every valid coordinate: `Top`, `Bottom`, then the inside cells by
    /// `(chunk, short, long)`.
    pub fn iter_all(self) -> (r: Vec<Coordinate>)
        requires
            self.wf(),
        ensures
            r@.len() == cell_count(self.n()),
            r@.no_duplicates(),
            forall|x: Coordinate| r@.contains(x) <==> valid_coord(self.n(), x),
            enumerated(self.n(), r@),
    {
        let n = self.subdivisions;
        proof {
            lemma_fits_bound(self.n());
        }
        let ghost row: int = 2 * (n + 1);
        let ghost block: int = (n + 1) * row;
        let mut r: Vec<Coordinate> = vec![Coordinate::Top, Coordinate::Bottom];
        let mut c: u8 = 0;
        while c < 5
            invariant
                0 <= c <= 5,
                self.wf(),
                10 * n + 12 <= usize::MAX,
                n == self.n(),
                row == 2 * (n + 1),
                block == (n + 1) * row,
                r@.len() == 2 + c * block,
                r@.no_duplicates(),
                enumerated(self.n(), r@),
                forall|x: Coordinate| r@.contains(x) <==> (valid_coord(self.n(), x) && (x is Top || x is Bottom || x->chunk < c)),
            decreases 5 - c,
        {
            let mut s: usize = 0;
            while s <= n
                invariant
                    0 <= c < 5,
                    0 <= s <= n + 1,
                    self.wf(),
                    n == self.n(),
                    10 * n + 12 <= usize::MAX,
                    row == 2 * (n + 1),
                    block == (n + 1) * row,
                    r@.len() == 2 + c * block + s * row,
                    r@.no_duplicates(),
                    enumerated(self.n(), r@),
                    forall|x: Coordinate| r@.contains(x) <==> (valid_coord(self.n(), x) && (x is Top || x is Bottom || x->chunk < c || (x->chunk == c && x->short < s))),
                decreases n + 1 - s,
            {
                let mut l: usize = 0;
                while l <= 2 * n + 1
                    invariant
                        0 <= c < 5,
                        0 <= s <= n,
                        0 <= l <= 2 * n + 2,
                        self.wf(),
                        n == self.n(),
                        10 * n + 12 <= usize::MAX,
                        row == 2 * (n + 1),
                        block == (n + 1) * row,
                        r@.len() == 2 + c * block + s * row + l,
                        r@.no_duplicates(),
                        enumerated(self.n(), r@),
                        forall|x: Coordinate| r@.contains(x) <==> (valid_coord(self.n(), x) && (x is Top || x is Bottom || x->chunk < c || (x->chunk == c && x->short < s) || (x->chunk == c && x->short == s && x->long < l))),
                    decreases 2 * n + 2 - l,
                {
                    let x = coord(c, s, l);
                    proof {
                        assert(!r@.contains(x));
                    }
                    let ghost old_r = r@;
                    r.push(x);
                    proof {
                        assert forall|y: Coordinate| r@.contains(y) <==> (valid_coord(self.n(), y) && (y is Top || y is Bottom || y->chunk < c || (y->chunk == c && y->short < s) || (y->chunk == c && y->short == s && y->long < l + 1))) by {
                            if r@.contains(y) && y != x {
                                let k = choose|k: int| 0 <= k < r@.len() && r@[k] == y;
                                assert(old_r[k] == y);
                            }
                            if y == x {
                                assert(r@[r@.len() - 1] == y);
                            } else if valid_coord(self.n(), y) && (y is Top || y is Bottom || y->chunk < c || (y->chunk == c && y->short < s) || (y->chunk == c && y->short == s && y->long < l + 1)) {
                                assert(old_r.contains(y));
                                let k = choose|k: int| 0 <= k < old_r.len() && old_r[k] == y;
                                assert(r@[k] == y);
                            }
                        }
                        assert forall|i: int, j: int| 2 <= i < j < r@.len() implies lex_lt(#[trigger] r@[i], #[trigger] r@[j]) by {
                            if j == r@.len() - 1 {
                                assert(old_r.contains(r@[i]));
                            } else {
                                assert(old_r[i] == r@[i] && old_r[j] == r@[j]);
                            }
                        }
                    }
                    l = l + 1;
                }
                proof {
                    assert((s + 1) * row == s * row + row) by (nonlinear_arith);
                }
                s = s + 1;
            }
            proof {
                assert((c + 1) * block == c * block + block) by (nonlinear_arith);
                assert((n + 1) * row == block);
            }
            c = c + 1;
        }
        proof {
            assert(5 * block == 10 * (n + 1) * (n + 1)) by (nonlinear_arith)
                requires
                    row == 2 * (n + 1),
                    block == (n + 1) * row,
            ;
        }
        r
    }
}

/// Every valid cell has five neighbours if it is one of the twelve pentagons
/// and six otherwise; each neighbour is a valid cell other than the cell itself.
pub proof fn lemma_ring_shape(n: int, x: Coordinate)
    requires
        fits(n),
        valid_coord(n, x),
    ensures
        ring_of(n, x).len() == (if is_pentagon(n, x) { 5int } else { 6 }),
        forall|i: int| 0 <= i < ring_of(n, x).len() ==> valid_coord(n, #[trigger] ring_of(n, x)[i]) && ring_of(n, x)[i] != x,
{
    reveal(ring_of);
    lemma_fits_bound(n);
    let r = ring_of(n, x);
    match x {
        Coordinate::Top => {},
        Coordinate::Bottom => {},
        Coordinate::Inside { chunk, short, long } => {
            assert(forall|i: int| 0 <= i < r.len() ==> valid_coord(n, #[trigger] r[i]));
            assert(forall|i: int| 0 <= i < r.len() ==> #[trigger] r[i] != x);
        },
    }
}

/// The twelve five-sided cells: the poles and two corners of each chunk.
pub open spec fn pentagons(n: int) -> Set<Coordinate> {
    set![
        Coordinate::Top,
        Coordinate::Bottom,
        cell(0, n, 0),
        cell(1, n, 0),
        cell(2, n, 0),
        cell(3, n, 0),
        cell(4, n, 0),
        cell(0, n, n + 1),
        cell(1, n, n + 1),
        cell(2, n, n + 1),
        cell(3, n, n + 1),
        cell(4, n, n + 1),
    ]
}

/// Exactly twelve valid cells are pentagons.
pub proof fn lemma_twelve_pentagons(n: int)
    requires
        fits(n),
    ensures
        forall|x: Coordinate| (valid_coord(n, x) && is_pentagon(n, x)) <==> pentagons(n).contains(x),
        pentagons(n).len() == 12,
{
    lemma_fits_bound(n);
    let e = Set::<Coordinate>::empty();
    let s1 = e.insert(Coordinate::Top);
    let s2 = s1.insert(Coordinate::Bottom);
    let s3 = s2.insert(cell(0, n, 0));
    let s4 = s3.insert(cell(1, n, 0));
    let s5 = s4.insert(cell(2, n, 0));
    let s6 = s5.insert(cell(3, n, 0));
    let s7 = s6.insert(cell(4, n, 0));
    let s8 = s7.insert(cell(0, n, n + 1));
    let s9 = s8.insert(cell(1, n, n + 1));
    let s10 = s9.insert(cell(2, n, n + 1));
    let s11 = s10.insert(cell(3, n, n + 1));
    let s12 = s11.insert(cell(4, n, n + 1));
    assert(pentagons(n) == s12);
    assert(!s1.contains(Coordinate::Bottom));
    assert(!s2.contains(cell(0, n, 0)));
    assert(!s3.contains(cell(1, n, 0)));
    assert(!s4.contains(cell(2, n, 0)));
    assert(!s5.contains(cell(3, n, 0)));
    assert(!s6.contains(cell(4, n, 0)));
    assert(!s7.contains(cell(0, n, n + 1)));
    assert(!s8.contains(cell(1, n, n + 1)));
    assert(!s9.contains(cell(2, n, n + 1)));
    assert(!s10.contains(cell(3, n, n + 1)));
    assert(!s11.contains(cell(4, n, n + 1)));
    assert forall|x: Coordinate| (valid_coord(n, x) && is_pentagon(n, x)) <==> pentagons(n).contains(x) by {
        if let Coordinate::Inside { chunk, short, long } = x {
            if valid_coord(n, x) && is_pentagon(n, x) {
                if long == 0 {
                    assert(x == cell(chunk as int, n, 0));
                } else {
                    assert(x == cell(chunk as int, n, n + 1));
                }
            }
        }
    }
}

/// Whether the ring `r` holds `x` within its first six places.
spec fn found(r: Seq<Coordinate>, x: Coordinate) -> bool {
    r[0] == x || r[1] == x || r[2] == x || r[3] == x || r[4] == x || (r.len() == 6 && r[5] == x)
}

proof fn lemma_found(r: Seq<Coordinate>, x: Coordinate)
    requires
        5 <= r.len() <= 6,
        found(r, x),
    ensures
        r.contains(x),
{
    if r[0] == x {
        assert(r[0] == x);
    } else if r[1] == x {
        assert(r[1] == x);
    } else if r[2] == x {
        assert(r[2] == x);
    } else if r[3] == x {
        assert(r[3] == x);
    } else if r[4] == x {
        assert(r[4] == x);
    } else {
        assert(r[5] == x);
    }
}

/// Adjacency is symmetric: every neighbour of `x` has `x` among its neighbours.
pub proof fn lemma_ring_symmetric(n: int, x: Coordinate, i: int)
    requires
        fits(n),
        valid_coord(n, x),
        0 <= i < ring_of(n, x).len(),
    ensures
        ring_of(n, ring_of(n, x)[i]).contains(x),
{
    lemma_ring_shape(n, x);
    let y = ring_of(n, x)[i];
    lemma_ring_shape(n, y);
    lemma_fits_bound(n);
    reveal(ring_of);
    match x {
        Coordinate::Top => {
            assert(y == cell(i, 0, 0));
            assert(ring_of(n, y)[0] == x);
        },
        Coordinate::Bottom => {
            assert(y == cell(4 - i, n, 2 * n + 1));
            if n == 0 {
                assert(ring_of(n, y)[2] == x);
            } else {
                assert(ring_of(n, y)[3] == x);
            }
        },
        Coordinate::Inside { chunk, short, long } => {
            let s = short as int;
            let l = long as int;
            if n == 0 && l == 0 {
                symmetric_n_zero_top(n, x, i);
            } else if n == 0 && l != 0 {
                symmetric_n_zero_bottom(n, x, i);
            } else if n > 0 && s == n && l == 0 {
                symmetric_edge_corner_low(n, x, i);
            } else if n > 0 && s == n && l == n + 1 {
                symmetric_edge_corner_mid(n, x, i);
            } else if n > 0 && s == n && 0 < l <= n {
                symmetric_edge_low(n, x, i);
            } else if n > 0 && s == n && n + 1 < l <= 2 * n {
                symmetric_edge_high(n, x, i);
            } else if n > 0 && s == n && l > 2 * n {
                symmetric_edge_end(n, x, i);
            } else if n > 0 && s == 0 && l == 0 {
                symmetric_top_start(n, x, i);
            } else if n > 0 && s == 0 && 0 < l <= n {
                symmetric_top_low(n, x, i);
            } else if n > 0 && s == 0 && n < l <= 2 * n {
                symmetric_top_high(n, x, i);
            } else if n > 0 && s == 0 && l > 2 * n {
                symmetric_top_end(n, x, i);
            } else if n > 0 && 0 < s < n && l == 0 {
                symmetric_side_start(n, x, i);
            } else if n > 0 && 0 < s < n && 0 < l <= 2 * n {
                symmetric_middle(n, x, i);
            } else if n > 0 && 0 < s < n && l > 2 * n {
                symmetric_side_end(n, x, i);
            }
        },
    }
    lemma_found(ring_of(n, y), x);
}

/// Reciprocity for the inside cells of one region of the chunk layout
/// (see `requires`), taken one place of the ring at a time.
#[verifier::spinoff_prover]
#[verifier::rlimit(100)]
proof fn symmetric_n_zero_top(n: int, x: Coordinate, i: int)
    requires
        fits(n),
        10 * n + 12 <= usize::MAX,
        valid_coord(n, x),
        x is Inside,
        ({
            let s = x->short as int;
            let l = x->long as int;
            n == 0 && l == 0
        }),
        0 <= i < ring_of(n, x).len(),
    ensures
        found(ring_of(n, ring_of(n, x)[i]), x),
{
    reveal(ring_of);
    if i == 0 {
    } else if i == 1 {
    } else if i == 2 {
    } else if i == 3 {
    } else if i == 4 {
    } else {
    }
}

/// Reciprocity for the inside cells of one region of the chunk layout
/// (see `requires`), taken one place of the ring at a time.
#[verifier::spinoff_prover]
#[verifier::rlimit(100)]
proof fn symmetric_n_zero_bottom(n: int, x: Coordinate, i: int)
    requires
        fits(n),
        10 * n + 12 <= usize::MAX,
        valid_coord(n, x),
        x is Inside,
        ({
            let s = x->short as int;
            let l = x->long as int;
            n == 0 && l != 0
        }),
        0 <= i < ring_of(n, x).len(),
    ensures
        found(ring_of(n, ring_of(n, x)[i]), x),
{
    reveal(ring_of);
    if i == 0 {
    } else if i == 1 {
    } else if i == 2 {
    } else if i == 3 {
    } else if i == 4 {
    } else {
    }
}

/// Reciprocity for the inside cells of one region of the chunk layout
/// (see `requires`), taken one place of the ring at a time.
#[verifier::spinoff_prover]
#[verifier::rlimit(100)]
proof fn symmetric_edge_corner_low(n: int, x: Coordinate, i: int)
    requires
        fits(n),
        10 * n + 12 <= usize::MAX,
        valid_coord(n, x),
        x is Inside,
        ({
            let s = x->short as int;
            let l = x->long as int;
            n > 0 && s == n && l == 0
        }),
        0 <= i < ring_of(n, x).len(),
    ensures
        found(ring_of(n, ring_of(n, x)[i]), x),
{
    reveal(ring_of);
    if i == 0 {
    } else if i == 1 {
    } else if i == 2 {
    } else if i == 3 {
    } else if i == 4 {
    } else {
    }
}

/// Reciprocity for the inside cells of one region of the chunk layout
/// (see `requires`), taken one place of the ring at a time.
#[verifier::spinoff_prover]
#[verifier::rlimit(100)]
proof fn symmetric_edge_corner_mid(n: int, x: Coordinate, i: int)
    requires
        fits(n),
        10 * n + 12 <= usize::MAX,
        valid_coord(n, x),
        x is Inside,
        ({
            let s = x->short as int;
            let l = x->long as int;
            n > 0 && s == n && l == n + 1
        }),
        0 <= i < ring_of(n, x).len(),
    ensures
        found(ring_of(n, ring_of(n, x)[i]), x),
{
    reveal(ring_of);
    if i == 0 {
    } else if i == 1 {
    } else if i == 2 {
    } else if i == 3 {
    } else if i == 4 {
    } else {
    }
}

/// Reciprocity for the inside cells of one region of the chunk layout
/// (see `requires`), taken one place of the ring at a time.
#[verifier::spinoff_prover]
#[verifier::rlimit(100)]
proof fn symmetric_edge_low(n: int, x: Coordinate, i: int)
    requires
        fits(n),
        10 * n + 12 <= usize::MAX,
        valid_coord(n, x),
        x is Inside,
        ({
            let s = x->short as int;
            let l = x->long as int;
            n > 0 && s == n && 0 < l <= n
        }),
        0 <= i < ring_of(n, x).len(),
    ensures
        found(ring_of(n, ring_of(n, x)[i]), x),
{
    reveal(ring_of);
    if i == 0 {
    } else if i == 1 {
    } else if i == 2 {
    } else if i == 3 {
    } else if i == 4 {
    } else {
    }
}

/// Reciprocity for the inside cells of one region of the chunk layout
/// (see `requires`), taken one place of the ring at a time.
#[verifier::spinoff_prover]
#[verifier::rlimit(100)]
proof fn symmetric_edge_high(n: int, x: Coordinate, i: int)
    requires
        fits(n),
        10 * n + 12 <= usize::MAX,
        valid_coord(n, x),
        x is Inside,
        ({
            let s = x->short as int;
            let l = x->long as int;
            n > 0 && s == n && n + 1 < l <= 2 * n
        }),
        0 <= i < ring_of(n, x).len(),
    ensures
        found(ring_of(n, ring_of(n, x)[i]), x),
{
    reveal(ring_of);
    if i == 0 {
    } else if i == 1 {
    } else if i == 2 {
    } else if i == 3 {
    } else if i == 4 {
    } else {
    }
}

/// Reciprocity for the inside cells of one region of the chunk layout
/// (see `requires`), taken one place of the ring at a time.
#[verifier::spinoff_prover]
#[verifier::rlimit(100)]
proof fn symmetric_edge_end(n: int, x: Coordinate, i: int)
    requires
        fits(n),
        10 * n + 12 <= usize::MAX,
        valid_coord(n, x),
        x is Inside,
        ({
            let s = x->short as int;
            let l = x->long as int;
            n > 0 && s == n && l > 2 * n
        }),
        0 <= i < ring_of(n, x).len(),
    ensures
        found(ring_of(n, ring_of(n, x)[i]), x),
{
    reveal(ring_of);
    if i == 0 {
    } else if i == 1 {
    } else if i == 2 {
    } else if i == 3 {
    } else if i == 4 {
    } else {
    }
}

/// Reciprocity for the inside cells of one region of the chunk layout
/// (see `requires`), taken one place of the ring at a time.
#[verifier::spinoff_prover]
#[verifier::rlimit(100)]
proof fn symmetric_top_start(n: int, x: Coordinate, i: int)
    requires
        fits(n),
        10 * n + 12 <= usize::MAX,
        valid_coord(n, x),
        x is Inside,
        ({
            let s = x->short as int;
            let l = x->long as int;
            n > 0 && s == 0 && l == 0
        }),
        0 <= i < ring_of(n, x).len(),
    ensures
        found(ring_of(n, ring_of(n, x)[i]), x),
{
    reveal(ring_of);
    if i == 0 {
    } else if i == 1 {
    } else if i == 2 {
    } else if i == 3 {
    } else if i == 4 {
    } else {
    }
}

/// Reciprocity for the inside cells of one region of the chunk layout
/// (see `requires`), taken one place of the ring at a time.
#[verifier::spinoff_prover]
#[verifier::rlimit(100)]
proof fn symmetric_top_low(n: int, x: Coordinate, i: int)
    requires
        fits(n),
        10 * n + 12 <= usize::MAX,
        valid_coord(n, x),
        x is Inside,
        ({
            let s = x->short as int;
            let l = x->long as int;
            n > 0 && s == 0 && 0 < l <= n
        }),
        0 <= i < ring_of(n, x).len(),
    ensures
        found(ring_of(n, ring_of(n, x)[i]), x),
{
    reveal(ring_of);
    if i == 0 {
    } else if i == 1 {
    } else if i == 2 {
    } else if i == 3 {
    } else if i == 4 {
    } else {
    }
}

/// Reciprocity for the inside cells of one region of the chunk layout
/// (see `requires`), taken one place of the ring at a time.
#[verifier::spinoff_prover]
#[verifier::rlimit(100)]
proof fn symmetric_top_high(n: int, x: Coordinate, i: int)
    requires
        fits(n),
        10 * n + 12 <= usize::MAX,
        valid_coord(n, x),
        x is Inside,
        ({
            let s = x->short as int;
            let l = x->long as int;
            n > 0 && s == 0 && n < l <= 2 * n
        }),
        0 <= i < ring_of(n, x).len(),
    ensures
        found(ring_of(n, ring_of(n, x)[i]), x),
{
    reveal(ring_of);
    if i == 0 {
    } else if i == 1 {
    } else if i == 2 {
    } else if i == 3 {
    } else if i == 4 {
    } else {
    }
}

/// Reciprocity for the inside cells of one region of the chunk layout
/// (see `requires`), taken one place of the ring at a time.
#[verifier::spinoff_prover]
#[verifier::rlimit(100)]
proof fn symmetric_top_end(n: int, x: Coordinate, i: int)
    requires
        fits(n),
        10 * n + 12 <= usize::MAX,
        valid_coord(n, x),
        x is Inside,
        ({
            let s = x->short as int;
            let l = x->long as int;
            n > 0 && s == 0 && l > 2 * n
        }),
        0 <= i < ring_of(n, x).len(),
    ensures
        found(ring_of(n, ring_of(n, x)[i]), x),
{
    reveal(ring_of);
    if i == 0 {
    } else if i == 1 {
    } else if i == 2 {
    } else if i == 3 {
    } else if i == 4 {
    } else {
    }
}

/// Reciprocity for the inside cells of one region of the chunk layout
/// (see `requires`), taken one place of the ring at a time.
#[verifier::spinoff_prover]
#[verifier::rlimit(100)]
proof fn symmetric_side_start(n: int, x: Coordinate, i: int)
    requires
        fits(n),
        10 * n + 12 <= usize::MAX,
        valid_coord(n, x),
        x is Inside,
        ({
            let s = x->short as int;
            let l = x->long as int;
            n > 0 && 0 < s < n && l == 0
        }),
        0 <= i < ring_of(n, x).len(),
    ensures
        found(ring_of(n, ring_of(n, x)[i]), x),
{
    reveal(ring_of);
    if i == 0 {
    } else if i == 1 {
    } else if i == 2 {
    } else if i == 3 {
    } else if i == 4 {
    } else {
    }
}

/// Reciprocity for the inside cells of one region of the chunk layout
/// (see `requires`), taken one place of the ring at a time.
#[verifier::spinoff_prover]
#[verifier::rlimit(100)]
proof fn symmetric_middle(n: int, x: Coordinate, i: int)
    requires
        fits(n),
        10 * n + 12 <= usize::MAX,
        valid_coord(n, x),
        x is Inside,
        ({
            let s = x->short as int;
            let l = x->long as int;
            n > 0 && 0 < s < n && 0 < l <= 2 * n
        }),
        0 <= i < ring_of(n, x).len(),
    ensures
        found(ring_of(n, ring_of(n, x)[i]), x),
{
    reveal(ring_of);
    if i == 0 {
    } else if i == 1 {
    } else if i == 2 {
    } else if i == 3 {
    } else if i == 4 {
    } else {
    }
}

/// Reciprocity for the inside cells of one region of the chunk layout
/// (see `requires`), taken one place of the ring at a time.
#[verifier::spinoff_prover]
#[verifier::rlimit(100)]
proof fn symmetric_side_end(n: int, x: Coordinate, i: int)
    requires
        fits(n),
        10 * n + 12 <= usize::MAX,
        valid_coord(n, x),
        x is Inside,
        ({
            let s = x->short as int;
            let l = x->long as int;
            n > 0 && 0 < s < n && l > 2 * n
        }),
        0 <= i < ring_of(n, x).len(),
    ensures
        found(ring_of(n, ring_of(n, x)[i]), x),
{
    reveal(ring_of);
    if i == 0 {
    } else if i == 1 {
    } else if i == 2 {
    } else if i == 3 {
    } else if i == 4 {
    } else {
    }
}

/// Walk order: each entry of a ring is a neighbour of the entry before it,
/// the first of the last.
pub proof fn lemma_ring_walk(n: int, x: Coordinate, i: int)
    requires
        fits(n),
        valid_coord(n, x),
        0 <= i < ring_of(n, x).len(),
    ensures
        ring_of(n, ring_of(n, x)[i]).contains(ring_of(n, x)[(i + 1) % (ring_of(n, x).len() as int)]),
{
    lemma_ring_shape(n, x);
    let y = ring_of(n, x)[i];
    lemma_ring_shape(n, y);
    lemma_fits_bound(n);
    match x {
        Coordinate::Top | Coordinate::Bottom => {
            walk_pole(n, x, i);
        },
        Coordinate::Inside { chunk, short, long } => {
            let s = short as int;
            let l = long as int;
            if n == 0 && l == 0 {
                walk_n_zero_top(n, x, i);
            } else if n == 0 && l != 0 {
                walk_n_zero_bottom(n, x, i);
            } else if n > 0 && s == n && l == 0 {
                walk_edge_corner_low(n, x, i);
            } else if n > 0 && s == n && l == n + 1 {
                walk_edge_corner_mid(n, x, i);
            } else if n > 0 && s == n && 0 < l <= n {
                walk_edge_low(n, x, i);
            } else if n > 0 && s == n && n + 1 < l <= 2 * n {
                walk_edge_high(n, x, i);
            } else if n > 0 && s == n && l > 2 * n {
                walk_edge_end(n, x, i);
            } else if n > 0 && s == 0 && l == 0 {
                walk_top_start(n, x, i);
            } else if n > 0 && s == 0 && 0 < l <= n {
                walk_top_low(n, x, i);
            } else if n > 0 && s == 0 && n < l <= 2 * n {
                walk_top_high(n, x, i);
            } else if n > 0 && s == 0 && l > 2 * n {
                walk_top_end(n, x, i);
            } else if n > 0 && 0 < s < n && l == 0 {
                walk_side_start(n, x, i);
            } else if n > 0 && 0 < s < n && 0 < l <= 2 * n {
                walk_middle(n, x, i);
            } else if n > 0 && 0 < s < n && l > 2 * n {
                walk_side_end(n, x, i);
            }
        },
    }
    let len = ring_of(n, x).len() as int;
    if i + 1 < len {
        vstd::arithmetic::div_mod::lemma_small_mod((i + 1) as nat, len as nat);
    } else {
        vstd::arithmetic::div_mod::lemma_mod_self_0(len);
    }
    lemma_found(ring_of(n, y), ring_of(n, x)[(i + 1) % len]);
}

/// Walk order around the two poles, taken one place of the ring at a time.
#[verifier::spinoff_prover]
#[verifier::rlimit(100)]
proof fn walk_pole(n: int, x: Coordinate, i: int)
    requires
        fits(n),
        10 * n + 12 <= usize::MAX,
        x is Top || x is Bottom,
        0 <= i < ring_of(n, x).len(),
    ensures
        found(ring_of(n, ring_of(n, x)[i]), ring_of(n, x)[if i + 1 < ring_of(n, x).len() { i + 1 } else { 0 }]),
{
    reveal(ring_of);
    if i == 0 {
    } else if i == 1 {
    } else if i == 2 {
    } else if i == 3 {
    } else {
    }
}

/// Walk order for the inside cells of one region of the chunk layout
/// (see `requires`), taken one place of the ring at a time.
#[verifier::spinoff_prover]
#[verifier::rlimit(100)]
proof fn walk_n_zero_top(n: int, x: Coordinate, i: int)
    requires
        fits(n),
        10 * n + 12 <= usize::MAX,
        valid_coord(n, x),
        x is Inside,
        ({
            let s = x->short as int;
            let l = x->long as int;
            n == 0 && l == 0
        }),
        0 <= i < ring_of(n, x).len(),
    ensures
        found(ring_of(n, ring_of(n, x)[i]), ring_of(n, x)[if i + 1 < ring_of(n, x).len() { i + 1 } else { 0 }]),
{
    reveal(ring_of);
    if i == 0 {
    } else if i == 1 {
    } else if i == 2 {
    } else if i == 3 {
    } else if i == 4 {
    } else {
    }
}

/// Walk order for the inside cells of one region of the chunk layout
/// (see `requires`), taken one place of the ring at a time.
#[verifier::spinoff_prover]
#[verifier::rlimit(100)]
proof fn walk_n_zero_bottom(n: int, x: Coordinate, i: int)
    requires
        fits(n),
        10 * n + 12 <= usize::MAX,
        valid_coord(n, x),
        x is Inside,
        ({
            let s = x->short as int;
            let l = x->long as int;
            n == 0 && l != 0
        }),
        0 <= i < ring_of(n, x).len(),
    ensures
        found(ring_of(n, ring_of(n, x)[i]), ring_of(n, x)[if i + 1 < ring_of(n, x).len() { i + 1 } else { 0 }]),
{
    reveal(ring_of);
    if i == 0 {
    } else if i == 1 {
    } else if i == 2 {
    } else if i == 3 {
    } else if i == 4 {
    } else {
    }
}

/// Walk order for the inside cells of one region of the chunk layout
/// (see `requires`), taken one place of the ring at a time.
#[verifier::spinoff_prover]
#[verifier::rlimit(100)]
proof fn walk_edge_corner_low(n: int, x: Coordinate, i: int)
    requires
        fits(n),
        10 * n + 12 <= usize::MAX,
        valid_coord(n, x),
        x is Inside,
        ({
            let s = x->short as int;
            let l = x->long as int;
            n > 0 && s == n && l == 0
        }),
        0 <= i < ring_of(n, x).len(),
    ensures
        found(ring_of(n, ring_of(n, x)[i]), ring_of(n, x)[if i + 1 < ring_of(n, x).len() { i + 1 } else { 0 }]),
{
    reveal(ring_of);
    if i == 0 {
    } else if i == 1 {
    } else if i == 2 {
    } else if i == 3 {
    } else if i == 4 {
    } else {
    }
}

/// Walk order for the inside cells of one region of the chunk layout
/// (see `requires`), taken one place of the ring at a time.
#[verifier::spinoff_prover]
#[verifier::rlimit(100)]
proof fn walk_edge_corner_mid(n: int, x: Coordinate, i: int)
    requires
        fits(n),
        10 * n + 12 <= usize::MAX,
        valid_coord(n, x),
        x is Inside,
        ({
            let s = x->short as int;
            let l = x->long as int;
            n > 0 && s == n && l == n + 1
        }),
        0 <= i < ring_of(n, x).len(),
    ensures
        found(ring_of(n, ring_of(n, x)[i]), ring_of(n, x)[if i + 1 < ring_of(n, x).len() { i + 1 } else { 0 }]),
{
    reveal(ring_of);
    if i == 0 {
    } else if i == 1 {
    } else if i == 2 {
    } else if i == 3 {
    } else if i == 4 {
    } else {
    }
}

/// Walk order for the inside cells of one region of the chunk layout
/// (see `requires`), taken one place of the ring at a time.
#[verifier::spinoff_prover]
#[verifier::rlimit(100)]
proof fn walk_edge_low(n: int, x: Coordinate, i: int)
    requires
        fits(n),
        10 * n + 12 <= usize::MAX,
        valid_coord(n, x),
        x is Inside,
        ({
            let s = x->short as int;
            let l = x->long as int;
            n > 0 && s == n && 0 < l <= n
        }),
        0 <= i < ring_of(n, x).len(),
    ensures
        found(ring_of(n, ring_of(n, x)[i]), ring_of(n, x)[if i + 1 < ring_of(n, x).len() { i + 1 } else { 0 }]),
{
    reveal(ring_of);
    if i == 0 {
    } else if i == 1 {
    } else if i == 2 {
    } else if i == 3 {
    } else if i == 4 {
    } else {
    }
}

/// Walk order for the inside cells of one region of the chunk layout
/// (see `requires`), taken one place of the ring at a time.
#[verifier::spinoff_prover]
#[verifier::rlimit(100)]
proof fn walk_edge_high(n: int, x: Coordinate, i: int)
    requires
        fits(n),
        10 * n + 12 <= usize::MAX,
        valid_coord(n, x),
        x is Inside,
        ({
            let s = x->short as int;
            let l = x->long as int;
            n > 0 && s == n && n + 1 < l <= 2 * n
        }),
        0 <= i < ring_of(n, x).len(),
    ensures
        found(ring_of(n, ring_of(n, x)[i]), ring_of(n, x)[if i + 1 < ring_of(n, x).len() { i + 1 } else { 0 }]),
{
    reveal(ring_of);
    if i == 0 {
    } else if i == 1 {
    } else if i == 2 {
    } else if i == 3 {
    } else if i == 4 {
    } else {
    }
}

/// Walk order for the inside cells of one region of the chunk layout
/// (see `requires`), taken one place of the ring at a time.
#[verifier::spinoff_prover]
#[verifier::rlimit(100)]
proof fn walk_edge_end(n: int, x: Coordinate, i: int)
    requires
        fits(n),
        10 * n + 12 <= usize::MAX,
        valid_coord(n, x),
        x is Inside,
        ({
            let s = x->short as int;
            let l = x->long as int;
            n > 0 && s == n && l > 2 * n
        }),
        0 <= i < ring_of(n, x).len(),
    ensures
        found(ring_of(n, ring_of(n, x)[i]), ring_of(n, x)[if i + 1 < ring_of(n, x).len() { i + 1 } else { 0 }]),
{
    reveal(ring_of);
    if i == 0 {
    } else if i == 1 {
    } else if i == 2 {
    } else if i == 3 {
    } else if i == 4 {
    } else {
    }
}

/// Walk order for the inside cells of one region of the chunk layout
/// (see `requires`), taken one place of the ring at a time.
#[verifier::spinoff_prover]
#[verifier::rlimit(100)]
proof fn walk_top_start(n: int, x: Coordinate, i: int)
    requires
        fits(n),
        10 * n + 12 <= usize::MAX,
        valid_coord(n, x),
        x is Inside,
        ({
            let s = x->short as int;
            let l = x->long as int;
            n > 0 && s == 0 && l == 0
        }),
        0 <= i < ring_of(n, x).len(),
    ensures
        found(ring_of(n, ring_of(n, x)[i]), ring_of(n, x)[if i + 1 < ring_of(n, x).len() { i + 1 } else { 0 }]),
{
    reveal(ring_of);
    if i == 0 {
    } else if i == 1 {
    } else if i == 2 {
    } else if i == 3 {
    } else if i == 4 {
    } else {
    }
}

/// Walk order for the inside cells of one region of the chunk layout
/// (see `requires`), taken one place of the ring at a time.
#[verifier::spinoff_prover]
#[verifier::rlimit(100)]
proof fn walk_top_low(n: int, x: Coordinate, i: int)
    requires
        fits(n),
        10 * n + 12 <= usize::MAX,
        valid_coord(n, x),
        x is Inside,
        ({
            let s = x->short as int;
            let l = x->long as int;
            n > 0 && s == 0 && 0 < l <= n
        }),
        0 <= i < ring_of(n, x).len(),
    ensures
        found(ring_of(n, ring_of(n, x)[i]), ring_of(n, x)[if i + 1 < ring_of(n, x).len() { i + 1 } else { 0 }]),
{
    reveal(ring_of);
    if i == 0 {
    } else if i == 1 {
    } else if i == 2 {
    } else if i == 3 {
    } else if i == 4 {
    } else {
    }
}

/// Walk order for the inside cells of one region of the chunk layout
/// (see `requires`), taken one place of the ring at a time.
#[verifier::spinoff_prover]
#[verifier::rlimit(100)]
proof fn walk_top_high(n: int, x: Coordinate, i: int)
    requires
        fits(n),
        10 * n + 12 <= usize::MAX,
        valid_coord(n, x),
        x is Inside,
        ({
            let s = x->short as int;
            let l = x->long as int;
            n > 0 && s == 0 && n < l <= 2 * n
        }),
        0 <= i < ring_of(n, x).len(),
    ensures
        found(ring_of(n, ring_of(n, x)[i]), ring_of(n, x)[if i + 1 < ring_of(n, x).len() { i + 1 } else { 0 }]),
{
    reveal(ring_of);
    if i == 0 {
    } else if i == 1 {
    } else if i == 2 {
    } else if i == 3 {
    } else if i == 4 {
    } else {
    }
}

/// Walk order for the inside cells of one region of the chunk layout
/// (see `requires`), taken one place of the ring at a time.
#[verifier::spinoff_prover]
#[verifier::rlimit(100)]
proof fn walk_top_end(n: int, x: Coordinate, i: int)
    requires
        fits(n),
        10 * n + 12 <= usize::MAX,
        valid_coord(n, x),
        x is Inside,
        ({
            let s = x->short as int;
            let l = x->long as int;
            n > 0 && s == 0 && l > 2 * n
        }),
        0 <= i < ring_of(n, x).len(),
    ensures
        found(ring_of(n, ring_of(n, x)[i]), ring_of(n, x)[if i + 1 < ring_of(n, x).len() { i + 1 } else { 0 }]),
{
    reveal(ring_of);
    if i == 0 {
    } else if i == 1 {
    } else if i == 2 {
    } else if i == 3 {
    } else if i == 4 {
    } else {
    }
}

/// Walk order for the inside cells of one region of the chunk layout
/// (see `requires`), taken one place of the ring at a time.
#[verifier::spinoff_prover]
#[verifier::rlimit(100)]
proof fn walk_side_start(n: int, x: Coordinate, i: int)
    requires
        fits(n),
        10 * n + 12 <= usize::MAX,
        valid_coord(n, x),
        x is Inside,
        ({
            let s = x->short as int;
            let l = x->long as int;
            n > 0 && 0 < s < n && l == 0
        }),
        0 <= i < ring_of(n, x).len(),
    ensures
        found(ring_of(n, ring_of(n, x)[i]), ring_of(n, x)[if i + 1 < ring_of(n, x).len() { i + 1 } else { 0 }]),
{
    reveal(ring_of);
    if i == 0 {
    } else if i == 1 {
    } else if i == 2 {
    } else if i == 3 {
    } else if i == 4 {
    } else {
    }
}

/// Walk order for the inside cells of one region of the chunk layout
/// (see `requires`), taken one place of the ring at a time.
#[verifier::spinoff_prover]
#[verifier::rlimit(100)]
proof fn walk_middle(n: int, x: Coordinate, i: int)
    requires
        fits(n),
        10 * n + 12 <= usize::MAX,
        valid_coord(n, x),
        x is Inside,
        ({
            let s = x->short as int;
            let l = x->long as int;
            n > 0 && 0 < s < n && 0 < l <= 2 * n
        }),
        0 <= i < ring_of(n, x).len(),
    ensures
        found(ring_of(n, ring_of(n, x)[i]), ring_of(n, x)[if i + 1 < ring_of(n, x).len() { i + 1 } else { 0 }]),
{
    reveal(ring_of);
    if i == 0 {
    } else if i == 1 {
    } else if i == 2 {
    } else if i == 3 {
    } else if i == 4 {
    } else {
    }
}

/// Walk order for the inside cells of one region of the chunk layout
/// (see `requires`), taken one place of the ring at a time.
#[verifier::spinoff_prover]
#[verifier::rlimit(100)]
proof fn walk_side_end(n: int, x: Coordinate, i: int)
    requires
        fits(n),
        10 * n + 12 <= usize::MAX,
        valid_coord(n, x),
        x is Inside,
        ({
            let s = x->short as int;
            let l = x->long as int;
            n > 0 && 0 < s < n && l > 2 * n
        }),
        0 <= i < ring_of(n, x).len(),
    ensures
        found(ring_of(n, ring_of(n, x)[i]), ring_of(n, x)[if i + 1 < ring_of(n, x).len() { i + 1 } else { 0 }]),
{
    reveal(ring_of);
    if i == 0 {
    } else if i == 1 {
    } else if i == 2 {
    } else if i == 3 {
    } else if i == 4 {
    } else {
    }
}

/// A subdivision count that fits is far below the largest `usize`.
pub proof fn lemma_fits_bound(n: int)
    requires
        fits(n),
    ensures
        10 * n + 12 <= usize::MAX,
        4 * n + 8 <= usize::MAX,
        2 * (n + 1) * (n + 1) <= usize::MAX,
{
    assert(10 * (n + 1) * (n + 1) >= 10 * (n + 1) && 10 * (n + 1) * (n + 1) >= 2 * (n + 1) * (n + 1)) by (nonlinear_arith)
        requires
            n >= 0,
    ;
}

} // verus!
