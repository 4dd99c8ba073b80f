//! Dense payload storage indexed by coordinate.

use crate::coordinate::{cell_count, lemma_fits_bound, lemma_ring_shape, ring_of, valid_coord, Chunked, Coordinate};
use vstd::prelude::*;

verus! {

/// Organizes data on a hexagon tiled sphere: one payload per cell, the two
/// poles apart and each chunk as a dense row-major array of `2 (n + 1)^2`.
#[derive(Clone, Debug)]
pub struct Hexasphere<T> {
    inner: Chunked,
    top: T,
    bottom: T,
    c0: Vec<T>,
    c1: Vec<T>,
    c2: Vec<T>,
    c3: Vec<T>,
    c4: Vec<T>,
}

/// The `c`-th of five sequences.
pub open spec fn pick<T>(c: int, a0: Seq<T>, a1: Seq<T>, a2: Seq<T>, a3: Seq<T>, a4: Seq<T>) -> Seq<T> {
    if c == 0 {
        a0
    } else if c == 1 {
        a1
    } else if c == 2 {
        a2
    } else if c == 3 {
        a3
    } else {
        a4
    }
}

/// Length of one chunk's array.
pub open spec fn chunk_len(n: int) -> int {
    2 * (n + 1) * (n + 1)
}

/// Place of `(short, long)` in a chunk's array.
pub open spec fn slot(n: int, short: int, long: int) -> int {
    short * (2 * (n + 1)) + long
}

pub(crate) proof fn lemma_slot_in_chunk(n: int, short: int, long: int)
    requires
        0 <= n,
        0 <= short <= n,
        0 <= long <= 2 * n + 1,
    ensures
        0 <= slot(n, short, long) < chunk_len(n),
{
    assert(short * (2 * (n + 1)) <= n * (2 * (n + 1))) by (nonlinear_arith)
        requires
            0 <= short <= n,
    ;
    assert(0 <= short * (2 * (n + 1))) by (nonlinear_arith)
        requires
            0 <= short,
            0 <= n,
    ;
    assert(n * (2 * (n + 1)) + 2 * n + 2 == chunk_len(n)) by (nonlinear_arith);
}

/// Place of cell `x` in the order of `all`: `Top`, `Bottom`, then each
/// chunk's array in turn.
pub open spec fn flat(n: int, x: Coordinate) -> int {
    match x {
        Coordinate::Top => 0,
        Coordinate::Bottom => 1,
        Coordinate::Inside { chunk, short, long } => 2 + chunk * chunk_len(n) + slot(n, short as int, long as int),
    }
}

/// Different valid cells have different places, all below the cell count.
proof fn lemma_flat(n: int, x: Coordinate, y: Coordinate)
    requires
        0 <= n,
        valid_coord(n, x),
        valid_coord(n, y),
    ensures
        0 <= flat(n, x) < cell_count(n),
        flat(n, x) == flat(n, y) ==> x == y,
{
    let len = chunk_len(n);
    assert(5 * (2 * (n + 1) * (n + 1)) + 2 == 10 * (n + 1) * (n + 1) + 2) by (nonlinear_arith);
    if let Coordinate::Inside { chunk, short, long } = x {
        lemma_slot_in_chunk(n, short as int, long as int);
        assert(0 <= chunk * len <= 4 * len) by (nonlinear_arith)
            requires
                0 <= chunk <= 4,
                0 <= len,
        ;
    }
    if let Coordinate::Inside { chunk: cy, short: sy, long: ly } = y {
        lemma_slot_in_chunk(n, sy as int, ly as int);
        assert(0 <= cy * len) by (nonlinear_arith)
            requires
                0 <= cy,
                0 <= len,
        ;
    }
    if flat(n, x) == flat(n, y) {
        if let (Coordinate::Inside { chunk: c1, short: s1, long: l1 }, Coordinate::Inside { chunk: c2, short: s2, long: l2 }) = (x, y) {
            let k1 = slot(n, s1 as int, l1 as int);
            let k2 = slot(n, s2 as int, l2 as int);
            vstd::arithmetic::div_mod::lemma_fundamental_div_mod_converse(c1 * len + k1, len, c1 as int, k1);
            vstd::arithmetic::div_mod::lemma_fundamental_div_mod_converse(c2 * len + k2, len, c2 as int, k2);
            lemma_slot_injective(n, s1 as int, l1 as int, s2 as int, l2 as int);
        }
    }
}

/// The first place of `x` in `v`, if any.
fn find_index(v: &Vec<usize>, x: usize) -> (r: Option<usize>)
    ensures
        match r {
            Some(q) => q < v@.len() && v@[q as int] == x,
            None => forall|a: int| 0 <= a < v@.len() ==> v@[a] != x,
        },
{
    let mut q: usize = 0;
    while q < v.len()
        invariant
            0 <= q <= v@.len(),
            forall|a: int| 0 <= a < q ==> v@[a] != x,
        decreases v@.len() - q,
    {
        if v[q] == x {
            return Some(q);
        }
        q = q + 1;
    }
    None
}

/// Different places of a chunk never share a slot.
proof fn lemma_slot_injective(n: int, s1: int, l1: int, s2: int, l2: int)
    requires
        0 <= n,
        0 <= s1 <= n,
        0 <= s2 <= n,
        0 <= l1 <= 2 * n + 1,
        0 <= l2 <= 2 * n + 1,
        slot(n, s1, l1) == slot(n, s2, l2),
    ensures
        s1 == s2 && l1 == l2,
{
    vstd::arithmetic::div_mod::lemma_fundamental_div_mod_converse(slot(n, s1, l1), 2 * (n + 1), s1, l1);
    vstd::arithmetic::div_mod::lemma_fundamental_div_mod_converse(slot(n, s2, l2), 2 * (n + 1), s2, l2);
}

/// Blocks of `len` items laid one after another do not overlap.
proof fn lemma_region_block(c2: int, k2: int, c: int, len: int, k: int)
    requires
        0 <= c2 < c,
        0 <= k2 < len,
        0 <= k,
    ensures
        0 <= c2 * len + k2 < c * len + k,
{
    assert(c2 * len + len <= c * len && 0 <= c2 * len) by (nonlinear_arith)
        requires
            0 <= c2 < c,
            0 <= len,
    ;
}

impl<T> Hexasphere<T> {
    /// The addressing scheme.
    pub closed spec fn grid(self) -> Chunked {
        self.inner
    }

    /// The number of subdivisions.
    pub open spec fn n(self) -> int {
        self.grid().n()
    }

    /// The array of chunk `c`.
    pub closed spec fn region(self, c: int) -> Seq<T> {
        if c == 0 {
            self.c0@
        } else if c == 1 {
            self.c1@
        } else if c == 2 {
            self.c2@
        } else if c == 3 {
            self.c3@
        } else {
            self.c4@
        }
    }

    /// Every chunk holds one payload per cell.
    pub open spec fn wf(self) -> bool {
        &&& self.grid().wf()
        &&& forall|c: int| 0 <= c < 5 ==> #[trigger] self.region(c).len() == chunk_len(self.n())
    }

    /// The payload of cell `x`.
    pub closed spec fn at(self, x: Coordinate) -> T {
        match x {
            Coordinate::Top => self.top,
            Coordinate::Bottom => self.bottom,
            Coordinate::Inside { chunk, short, long } => self.region(chunk as int)[slot(
                self.n(),
                short as int,
                long as int,
            )],
        }
    }

    /// Both stores have the same shape and the same payload in every cell.
    pub open spec fn agrees(self, o: Hexasphere<T>) -> bool {
        &&& self.grid() == o.grid()
        &&& forall|x: Coordinate| valid_coord(self.n(), x) ==> #[trigger] self.at(x) == o.at(x)
    }

    /// Builds a store from its parts: each chunk's payloads in row-major order.
    pub(crate) fn from_parts(
        inner: Chunked,
        top: T,
        bottom: T,
        c0: Vec<T>,
        c1: Vec<T>,
        c2: Vec<T>,
        c3: Vec<T>,
        c4: Vec<T>,
    ) -> (r: Self)
        requires
            inner.wf(),
            c0@.len() == chunk_len(inner.n()),
            c1@.len() == chunk_len(inner.n()),
            c2@.len() == chunk_len(inner.n()),
            c3@.len() == chunk_len(inner.n()),
            c4@.len() == chunk_len(inner.n()),
        ensures
            r.wf(),
            r.grid() == inner,
            r.at(Coordinate::Top) == top,
            r.at(Coordinate::Bottom) == bottom,
            r.region(0) == c0@,
            r.region(1) == c1@,
            r.region(2) == c2@,
            r.region(3) == c3@,
            r.region(4) == c4@,
            forall|x: Coordinate|
                valid_coord(inner.n(), x) && (x is Inside) ==> #[trigger] r.at(x) == pick(
                    x->chunk as int,
                    c0@,
                    c1@,
                    c2@,
                    c3@,
                    c4@,
                )[slot(inner.n(), x->short as int, x->long as int)],
    {
        Hexasphere { inner, top, bottom, c0, c1, c2, c3, c4 }
    }


    /// `r` has the shape of `self` and holds `to` of each of its payloads.
    pub open spec fn mapped<Q, F: Fn(&T) -> Q>(self, r: Hexasphere<Q>, to: F) -> bool {
        &&& r.wf()
        &&& r.grid() == self.grid()
        &&& forall|x: Coordinate| valid_coord(self.n(), x) ==> to.ensures((&self.at(x),), #[trigger] r.at(x))
    }

    /// `to` applied to each payload of one chunk's array.
    fn map_region<Q>(v: &Vec<T>, to: &impl Fn(&T) -> Q) -> (r: Vec<Q>)
        requires
            forall|t: &T| to.requires((t,)),
        ensures
            r@.len() == v@.len(),
            forall|k: int| 0 <= k < v@.len() ==> to.ensures((&v@[k],), #[trigger] r@[k]),
    {
        let mut out: Vec<Q> = Vec::new();
        let mut k: usize = 0;
        while k < v.len()
            invariant
                0 <= k <= v@.len(),
                out@.len() == k,
                forall|t: &T| to.requires((t,)),
                forall|j: int| 0 <= j < k ==> to.ensures((&v@[j],), #[trigger] out@[j]),
            decreases v@.len() - k,
        {
            out.push(to(&v[k]));
            k = k + 1;
        }
        out
    }

    /// A store of the same shape with `to` applied to every payload.
    pub fn change_type<Q>(&self, to: impl Fn(&T) -> Q) -> (r: Hexasphere<Q>)
        requires
            self.wf(),
            forall|t: &T| to.requires((t,)),
        ensures
            self.mapped(r, to),
    {
        let top = to(&self.top);
        let bottom = to(&self.bottom);
        let c0 = Self::map_region(&self.c0, &to);
        let c1 = Self::map_region(&self.c1, &to);
        let c2 = Self::map_region(&self.c2, &to);
        let c3 = Self::map_region(&self.c3, &to);
        let c4 = Self::map_region(&self.c4, &to);
        proof {
            assert(self.region(0).len() == chunk_len(self.n()));
            assert(self.region(1).len() == chunk_len(self.n()));
            assert(self.region(2).len() == chunk_len(self.n()));
            assert(self.region(3).len() == chunk_len(self.n()));
            assert(self.region(4).len() == chunk_len(self.n()));
        }
        let r = Hexasphere::from_parts(self.inner, top, bottom, c0, c1, c2, c3, c4);
        proof {
            assert forall|x: Coordinate| valid_coord(self.n(), x) implies to.ensures((&self.at(x),), #[trigger] r.at(x)) by {
                if let Coordinate::Inside { chunk, short, long } = x {
                    lemma_slot_in_chunk(self.n(), short as int, long as int);
                }
            }
        }
        r
    }

    /// Replaces the payload of cell `x` with `v`.
    pub fn set(&mut self, x: Coordinate, v: T)
        requires
            old(self).wf(),
            valid_coord(old(self).n(), x),
        ensures
            final(self).wf(),
            final(self).grid() == old(self).grid(),
            final(self).at(x) == v,
            forall|y: Coordinate|
                valid_coord(old(self).n(), y) && y != x ==> #[trigger] final(self).at(y) == old(self).at(y),
    {
        match x {
            Coordinate::Top => {
                self.top = v;
                assert forall|c: int| 0 <= c < 5 implies #[trigger] self.region(c) == old(self).region(c) by {}
            },
            Coordinate::Bottom => {
                self.bottom = v;
                assert forall|c: int| 0 <= c < 5 implies #[trigger] self.region(c) == old(self).region(c) by {}
            },
            Coordinate::Inside { chunk, short, long } => {
                proof {
                    lemma_slot_in_chunk(self.n(), short as int, long as int);
                    lemma_fits_bound(self.n());
                    assert(self.region(chunk as int).len() == chunk_len(self.n()));
                }
                let n = self.inner.subdivisions();
                let i = short * (2 * (n + 1)) + long;
                if chunk == 0 {
                    self.c0.set(i, v);
                } else if chunk == 1 {
                    self.c1.set(i, v);
                } else if chunk == 2 {
                    self.c2.set(i, v);
                } else if chunk == 3 {
                    self.c3.set(i, v);
                } else {
                    self.c4.set(i, v);
                }
                proof {
                    assert(self.region(chunk as int) == old(self).region(chunk as int).update(i as int, v));
                    assert forall|c: int| 0 <= c < 5 && c != chunk implies #[trigger] self.region(c) == old(self).region(c) by {}
                    assert forall|c: int| 0 <= c < 5 implies #[trigger] self.region(c).len() == chunk_len(self.n()) by {
                        assert(old(self).region(c).len() == chunk_len(self.n()));
                        if c != chunk {
                            assert(self.region(c) == old(self).region(c));
                        }
                    }
                    assert forall|y: Coordinate| valid_coord(self.n(), y) && y != x implies #[trigger] self.at(y) == old(self).at(y) by {
                        if let Coordinate::Inside { chunk: c2, short: s2, long: l2 } = y {
                            let k2 = slot(self.n(), s2 as int, l2 as int);
                            lemma_slot_in_chunk(self.n(), s2 as int, l2 as int);
                            if c2 == chunk {
                                if k2 == i as int {
                                    lemma_slot_injective(self.n(), s2 as int, l2 as int, short as int, long as int);
                                }
                                assert(self.at(y) == self.region(chunk as int)[k2]);
                            } else {
                                assert(self.region(c2 as int) == old(self).region(c2 as int));
                            }
                        }
                    }
                }
            },
        }
    }

    /// The payloads of the given cells, in order.
    pub fn get_many(&self, coordinates: &[Coordinate]) -> (r: Vec<&T>)
        requires
            self.wf(),
            forall|i: int| 0 <= i < coordinates@.len() ==> valid_coord(self.n(), #[trigger] coordinates@[i]),
        ensures
            r@.len() == coordinates@.len(),
            forall|i: int| 0 <= i < r@.len() ==> *(#[trigger] r@[i]) == self.at(coordinates@[i]),
    {
        let mut out: Vec<&T> = Vec::new();
        let mut i: usize = 0;
        while i < coordinates.len()
            invariant
                self.wf(),
                0 <= i <= coordinates@.len(),
                out@.len() == i,
                forall|j: int| 0 <= j < coordinates@.len() ==> valid_coord(self.n(), #[trigger] coordinates@[j]),
                forall|j: int| 0 <= j < i ==> *(#[trigger] out@[j]) == self.at(coordinates@[j]),
            decreases coordinates@.len() - i,
        {
            out.push(self.get(coordinates[i]));
            i = i + 1;
        }
        out
    }

    /// Every payload: `Top`, `Bottom`, then each chunk's array in turn.
    pub fn all(&self) -> (r: Vec<&T>)
        requires
            self.wf(),
        ensures
            r@.len() == cell_count(self.n()),
            *r@[0] == self.at(Coordinate::Top),
            *r@[1] == self.at(Coordinate::Bottom),
            forall|x: Coordinate|
                valid_coord(self.n(), x) && (x is Inside) ==> *r@[2 + x->chunk * chunk_len(self.n()) + slot(
                    self.n(),
                    x->short as int,
                    x->long as int,
                )] == #[trigger] self.at(x),
    {
        let mut out: Vec<&T> = Vec::new();
        out.push(&self.top);
        out.push(&self.bottom);
        let ghost len = chunk_len(self.n());
        let mut c: u8 = 0;
        while c < 5
            invariant
                self.wf(),
                0 <= c <= 5,
                len == chunk_len(self.n()),
                out@.len() == 2 + c * len,
                *out@[0] == self.top,
                *out@[1] == self.bottom,
                forall|c2: int, k: int| 0 <= c2 < c && 0 <= k < len ==> *out@[2 + c2 * len + k] == #[trigger] self.region(c2)[k],
            decreases 5 - c,
        {
            let v = if c == 0 {
                &self.c0
            } else if c == 1 {
                &self.c1
            } else if c == 2 {
                &self.c2
            } else if c == 3 {
                &self.c3
            } else {
                &self.c4
            };
            assert(v@ == self.region(c as int));
            let mut k: usize = 0;
            while k < v.len()
                invariant
                    self.wf(),
                    0 <= c < 5,
                    v@ == self.region(c as int),
                    v@.len() == len,
                    0 <= k <= len,
                    len == chunk_len(self.n()),
                    out@.len() == 2 + c * len + k,
                    *out@[0] == self.top,
                    *out@[1] == self.bottom,
                    forall|c2: int, k2: int| 0 <= c2 < c && 0 <= k2 < len ==> *out@[2 + c2 * len + k2] == #[trigger] self.region(c2)[k2],
                    forall|k2: int| 0 <= k2 < k ==> *out@[2 + c * len + k2] == #[trigger] self.region(c as int)[k2],
                decreases len - k,
            {
                let ghost before = out@;
                out.push(&v[k]);
                proof {
                    assert forall|c2: int, k2: int| 0 <= c2 < c && 0 <= k2 < len implies *out@[2 + c2 * len + k2] == #[trigger] self.region(c2)[k2] by {
                        lemma_region_block(c2, k2, c as int, len, k as int);
                        assert(out@[2 + c2 * len + k2] == before[2 + c2 * len + k2]);
                    }
                }
                k = k + 1;
            }
            proof {
                assert((c + 1) * len == c * len + len) by (nonlinear_arith);
            }
            c = c + 1;
        }
        proof {
            assert(5 * len + 2 == cell_count(self.n())) by (nonlinear_arith)
                requires
                    len == chunk_len(self.n()),
            ;
            assert forall|x: Coordinate| valid_coord(self.n(), x) && (x is Inside) implies *out@[2 + x->chunk * len + slot(
                self.n(),
                x->short as int,
                x->long as int,
            )] == #[trigger] self.at(x) by {
                lemma_slot_in_chunk(self.n(), x->short as int, x->long as int);
            }
        }
        out
    }

    /// Whether the payloads of `coordinates` can be borrowed mutably all at
    /// once: every coordinate is valid and no two are equal.
    fn can_get_many_mut(&self, coordinates: &[Coordinate]) -> (r: bool)
        ensures
            r == (coordinates@.no_duplicates() && forall|i: int|
                0 <= i < coordinates@.len() ==> valid_coord(self.n(), #[trigger] coordinates@[i])),
    {
        let mut i: usize = 0;
        while i < coordinates.len()
            invariant
                0 <= i <= coordinates@.len(),
                forall|a: int| 0 <= a < i ==> valid_coord(self.n(), #[trigger] coordinates@[a]),
                forall|a: int, b: int| 0 <= a < b < coordinates@.len() && a < i ==> coordinates@[a] != coordinates@[b],
            decreases coordinates@.len() - i,
        {
            if !self.inner.is_valid(coordinates[i]) {
                return false;
            }
            let mut j: usize = i + 1;
            while j < coordinates.len()
                invariant
                    i < j <= coordinates@.len(),
                    forall|b: int| i < b < j ==> coordinates@[i as int] != coordinates@[b],
                decreases coordinates@.len() - j,
            {
                if coordinates[i] == coordinates[j] {
                    return false;
                }
                j = j + 1;
            }
            i = i + 1;
        }
        true
    }

    /// Mutable references to the items of `v`, in order, pushed onto `out`.
    fn push_all_mut<'a>(v: &'a mut Vec<T>, out: &mut Vec<&'a mut T>)
        ensures
            final(out)@.len() == old(out)@.len() + old(v)@.len(),
            forall|k: int| 0 <= k < old(out)@.len() ==> final(out)@[k] == old(out)@[k],
            forall|k: int| 0 <= k < old(v)@.len() ==> *final(out)@[old(out)@.len() + k] == old(v)@[k],
    {
        let mut rest: &mut [T] = v.as_mut_slice();
        let ghost start = out@.len();
        let ghost items = rest@;
        let total = rest.len();
        let mut k: usize = 0;
        while rest.len() > 0
            invariant
                out@.len() == start + k,
                items.len() == total,
                k + rest@.len() == items.len(),
                start == old(out)@.len(),
                forall|j: int| 0 <= j < rest@.len() ==> rest@[j] == items[k + j],
                forall|j: int| 0 <= j < start ==> out@[j] == old(out)@[j],
                forall|j: int| 0 <= j < k ==> *out@[start + j] == items[j],
            decreases rest@.len(),
        {
            let (head, tail) = rest.split_at_mut(1);
            let first = head.first_mut().unwrap();
            out.push(first);
            rest = tail;
            k = k + 1;
        }
    }

    /// Every payload, mutably: `Top`, `Bottom`, then each chunk's array in turn.
    pub fn all_mut(&mut self) -> (r: Vec<&mut T>)
        requires
            old(self).wf(),
        ensures
            r@.len() == cell_count(old(self).n()),
            *r@[0] == old(self).at(Coordinate::Top),
            *r@[1] == old(self).at(Coordinate::Bottom),
            forall|x: Coordinate|
                valid_coord(old(self).n(), x) && (x is Inside) ==> *r@[2 + x->chunk * chunk_len(old(self).n()) + slot(
                    old(self).n(),
                    x->short as int,
                    x->long as int,
                )] == #[trigger] old(self).at(x),
    {
        let ghost n = self.n();
        let ghost len = chunk_len(n);
        let ghost s0 = *self;
        proof {
            assert(self.region(0).len() == chunk_len(n));
            assert(self.region(1).len() == chunk_len(n));
            assert(self.region(2).len() == chunk_len(n));
            assert(self.region(3).len() == chunk_len(n));
            assert(self.region(4).len() == chunk_len(n));
        }
        let mut out: Vec<&mut T> = Vec::new();
        out.push(&mut self.top);
        out.push(&mut self.bottom);
        let ghost o0 = out@;
        Self::push_all_mut(&mut self.c0, &mut out);
        let ghost o1 = out@;
        Self::push_all_mut(&mut self.c1, &mut out);
        let ghost o2 = out@;
        Self::push_all_mut(&mut self.c2, &mut out);
        let ghost o3 = out@;
        Self::push_all_mut(&mut self.c3, &mut out);
        let ghost o4 = out@;
        Self::push_all_mut(&mut self.c4, &mut out);
        proof {
            assert(5 * chunk_len(n) + 2 == cell_count(n)) by (nonlinear_arith);
            assert(o1.len() == 2 + len && o2.len() == 2 + 2 * len && o3.len() == 2 + 3 * len && o4.len() == 2 + 4 * len);
            assert forall|x: Coordinate|
                valid_coord(n, x) && (x is Inside) implies *out@[2 + x->chunk * len + slot(n, x->short as int, x->long as int)] == #[trigger] s0.at(x) by {
                let c = x->chunk as int;
                let k = slot(n, x->short as int, x->long as int);
                lemma_slot_in_chunk(n, x->short as int, x->long as int);
                if c == 0 {
                    assert(*o1[2 + k] == s0.region(0)[k]);
                } else if c == 1 {
                    assert(*o2[2 + len + k] == s0.region(1)[k]);
                } else if c == 2 {
                    assert(*o3[2 + 2 * len + k] == s0.region(2)[k]);
                } else if c == 3 {
                    assert(*o4[2 + 3 * len + k] == s0.region(3)[k]);
                } else {
                    assert(*out@[2 + 4 * len + k] == s0.region(4)[k]);
                }
            }
        }
        out
    }

    /// The place of cell `x` in the order of `all`.
    fn flat_index(&self, x: Coordinate) -> (r: usize)
        requires
            self.wf(),
            valid_coord(self.n(), x),
        ensures
            r == flat(self.n(), x),
    {
        proof {
            lemma_flat(self.n(), x, x);
            lemma_fits_bound(self.n());
        }
        match x {
            Coordinate::Top => 0,
            Coordinate::Bottom => 1,
            Coordinate::Inside { chunk, short, long } => {
                let n = self.inner.subdivisions();
                let row = 2 * (n + 1);
                proof {
                    assert(row * (n + 1) == 2 * (n + 1) * (n + 1)) by (nonlinear_arith)
                        requires
                            row == 2 * (n + 1),
                    ;
                    lemma_slot_in_chunk(self.n(), short as int, long as int);
                    assert(chunk * chunk_len(self.n()) + chunk_len(self.n()) <= 5 * chunk_len(self.n())) by (nonlinear_arith)
                        requires
                            chunk < 5,
                            0 <= chunk_len(self.n()),
                    ;
                    assert(short * row <= n * row) by (nonlinear_arith)
                        requires
                            short <= n,
                            0 <= row,
                    ;
                    assert(5 * (2 * (n + 1) * (n + 1)) + 2 == 10 * (n + 1) * (n + 1) + 2) by (nonlinear_arith);
                }
                let len = row * (n + 1);
                2 + chunk as usize * len + short * row + long
            },
        }
    }

    /// Mutable references to the payloads of `coordinates`, in order, when
    /// every coordinate is valid and no two are equal; `None` otherwise.
    pub fn get_many_mut(&mut self, coordinates: &[Coordinate]) -> (r: Option<Vec<&mut T>>)
        requires
            old(self).wf(),
        ensures
            r is Some <==> (coordinates@.no_duplicates() && forall|i: int|
                0 <= i < coordinates@.len() ==> valid_coord(old(self).n(), #[trigger] coordinates@[i])),
            match r {
                Some(v) => v@.len() == coordinates@.len() && forall|i: int|
                    0 <= i < v@.len() ==> *(#[trigger] v@[i]) == old(self).at(coordinates@[i]),
                None => *final(self) == *old(self),
            },
    {
        if !self.can_get_many_mut(coordinates) {
            return None;
        }
        let ghost n = self.n();
        let ghost s0 = *self;
        let m = coordinates.len();
        let mut want: Vec<usize> = Vec::new();
        let mut i: usize = 0;
        while i < m
            invariant
                self.wf(),
                *self == s0,
                n == self.n(),
                m == coordinates@.len(),
                0 <= i <= m,
                want@.len() == i,
                forall|a: int| 0 <= a < m ==> valid_coord(n, #[trigger] coordinates@[a]),
                forall|a: int| 0 <= a < i ==> #[trigger] want@[a] == flat(n, coordinates@[a]),
            decreases m - i,
        {
            want.push(self.flat_index(coordinates[i]));
            i = i + 1;
        }
        proof {
            assert forall|a: int, b: int| 0 <= a < b < m implies want@[a] != want@[b] by {
                lemma_flat(n, coordinates@[a], coordinates@[b]);
            }
            assert forall|a: int| 0 <= a < m implies #[trigger] want@[a] < cell_count(n) by {
                lemma_flat(n, coordinates@[a], coordinates@[a]);
            }
        }
        let mut slots: Vec<Option<&mut T>> = Vec::new();
        let mut i: usize = 0;
        while i < m
            invariant
                0 <= i <= m,
                slots@.len() == i,
                forall|a: int| 0 <= a < i ==> (#[trigger] slots@[a]) is None,
            decreases m - i,
        {
            slots.push(None);
            i = i + 1;
        }
        let mut refs = self.all_mut();
        proof {
            assert forall|x: Coordinate| valid_coord(n, x) && flat(n, x) < refs@.len() implies *refs@[flat(n, x)] == #[trigger] s0.at(x) by {
            }
        }
        let mut p: usize = refs.len();
        while p > 0
            invariant
                0 <= p <= refs@.len(),
                refs@.len() == p,
                m == coordinates@.len(),
                want@.len() == m,
                slots@.len() == m,
                forall|a: int| 0 <= a < m ==> valid_coord(n, #[trigger] coordinates@[a]),
                forall|a: int| 0 <= a < m ==> #[trigger] want@[a] == flat(n, coordinates@[a]),
                forall|a: int, b: int| 0 <= a < b < m ==> want@[a] != want@[b],
                forall|a: int| 0 <= a < m ==> #[trigger] want@[a] < cell_count(n),
                forall|x: Coordinate| valid_coord(n, x) && flat(n, x) < p ==> *refs@[flat(n, x)] == #[trigger] s0.at(x),
                forall|a: int| 0 <= a < m ==> ((#[trigger] slots@[a]) is Some <==> want@[a] >= p),
                forall|a: int| 0 <= a < m && slots@[a] is Some ==> *(#[trigger] slots@[a])->0 == s0.at(coordinates@[a]),
            decreases p,
        {
            p = p - 1;
            let ghost before = refs@;
            let r = refs.pop().unwrap();
            proof {
                assert(r == before[p as int]);
            }
            match find_index(&want, p) {
                Some(q) => {
                    proof {
                        assert(s0.at(coordinates@[q as int]) == s0.at(coordinates@[q as int]));
                    }
                    slots.set(q, Some(r));
                },
                None => {},
            }
        }
        let mut rev: Vec<&mut T> = Vec::new();
        while slots.len() > 0
            invariant
                slots@.len() + rev@.len() == m,
                forall|a: int| 0 <= a < slots@.len() ==> (#[trigger] slots@[a]) is Some && *slots@[a]->0 == s0.at(coordinates@[a]),
                forall|a: int| 0 <= a < rev@.len() ==> *(#[trigger] rev@[a]) == s0.at(coordinates@[m - 1 - a]),
            decreases slots@.len(),
        {
            let r = slots.pop().unwrap().unwrap();
            rev.push(r);
        }
        let mut out: Vec<&mut T> = Vec::new();
        while rev.len() > 0
            invariant
                rev@.len() + out@.len() == m,
                forall|a: int| 0 <= a < rev@.len() ==> *(#[trigger] rev@[a]) == s0.at(coordinates@[m - 1 - a]),
                forall|a: int| 0 <= a < out@.len() ==> *(#[trigger] out@[a]) == s0.at(coordinates@[a]),
            decreases rev@.len(),
        {
            let r = rev.pop().unwrap();
            out.push(r);
        }
        Some(out)
    }

    /// The neighbours of `coord`, in walk order, each with its payload.
    pub fn iter(&self, coord: Coordinate) -> (r: Vec<(&T, Coordinate)>)
        requires
            self.wf(),
            valid_coord(self.n(), coord),
        ensures
            r@.len() == ring_of(self.n(), coord).len(),
            forall|i: int| 0 <= i < r@.len() ==> (#[trigger] r@[i]).1 == ring_of(self.n(), coord)[i] && *r@[i].0 == self.at(r@[i].1),
    {
        let ring = self.inner.ring(coord);
        proof {
            lemma_ring_shape(self.n(), coord);
        }
        let mut out: Vec<(&T, Coordinate)> = Vec::new();
        let mut i: usize = 0;
        while i < ring.len()
            invariant
                self.wf(),
                ring@ == ring_of(self.n(), coord),
                forall|j: int| 0 <= j < ring@.len() ==> valid_coord(self.n(), #[trigger] ring@[j]),
                0 <= i <= ring@.len(),
                out@.len() == i,
                forall|j: int| 0 <= j < i ==> (#[trigger] out@[j]).1 == ring@[j] && *out@[j].0 == self.at(out@[j].1),
            decreases ring@.len() - i,
        {
            let x = ring[i];
            out.push((self.get(x), x));
            i = i + 1;
        }
        out
    }

    pub fn chunked(&self) -> (r: Chunked)
        ensures
            r == self.grid(),
    {
        self.inner
    }

    /// The payload of cell `x`.
    pub fn get(&self, x: Coordinate) -> (r: &T)
        requires
            self.wf(),
            valid_coord(self.n(), x),
        ensures
            *r == self.at(x),
    {
        match x {
            Coordinate::Top => &self.top,
            Coordinate::Bottom => &self.bottom,
            Coordinate::Inside { chunk, short, long } => {
                proof {
                    lemma_slot_in_chunk(self.n(), short as int, long as int);
                    lemma_fits_bound(self.n());
                    assert(self.region(chunk as int).len() == chunk_len(self.n()));
                }
                let n = self.inner.subdivisions();
                let i = short * (2 * (n + 1)) + long;
                if chunk == 0 {
                    &self.c0[i]
                } else if chunk == 1 {
                    &self.c1[i]
                } else if chunk == 2 {
                    &self.c2[i]
                } else if chunk == 3 {
                    &self.c3[i]
                } else {
                    &self.c4[i]
                }
            },
        }
    }
}

/// Changing the type with a function that returns its argument, twice over,
/// gives back a store with the same shape and the same payloads.
pub proof fn lemma_change_type_identity<T, F: Fn(&T) -> T>(h: Hexasphere<T>, a: Hexasphere<T>, b: Hexasphere<T>, id: F)
    requires
        h.wf(),
        forall|t: &T, q: T| id.ensures((t,), q) ==> q == *t,
        h.mapped(a, id),
        a.mapped(b, id),
    ensures
        b.agrees(h),
{
    assert forall|x: Coordinate| valid_coord(b.n(), x) implies #[trigger] b.at(x) == h.at(x) by {
        assert(id.ensures((&h.at(x),), a.at(x)));
        assert(id.ensures((&a.at(x),), b.at(x)));
    }
}

} // verus!
