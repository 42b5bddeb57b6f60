use vstd::prelude::*;

use ndarray::ArrayD;
use rand::RngCore;
use rand::rngs::ThreadRng;

use crate::geometry::{
    extent_product, extents_positive, in_bounds, lemma_extent_product_mono,
    lemma_extent_product_positive, lemma_neighbor_in_bounds, lemma_site_enumeration,
    lemma_site_in_bounds, neighbor, site,
    site_count,
};

verus! {

/// A dense array of spins of `ndarray`, laid out by the shape it was made with.
// Verus refuses a declaration of `ndarray::ArrayBase` (its `RawData` bound), so
// the array is held in a field that Verus does not read.
#[verifier::external_body]
pub struct SpinArray {
    cells: ArrayD<i8>,
}

/// The thread-local generator of `rand`, carried through opaquely.
#[verifier::external_type_specification]
#[verifier::external_body]
pub struct ExThreadRng(ThreadRng);

/// The spins an array holds, keyed by their coordinates.
pub uninterp spec fn spins_of(a: SpinArray) -> Map<Seq<usize>, i8>;

/// Relies on `rand::thread_rng`: a handle on the thread's generator; nothing
/// is known of what it will draw.
pub assume_specification[ rand::thread_rng ]() -> ThreadRng;

/// Relies on `RngCore::next_u32` of `ThreadRng`: any `u32` may come back.
#[verifier::external_body]
fn next_u32(rng: &mut ThreadRng) -> (r: u32) {
    rng.next_u32()
}

/// Relies on `ndarray::ArrayBase::from_elem`: an array of the given shape
/// whose every element is `v`; it panics where the element count overflows
/// `isize`.
#[verifier::external_body]
fn filled(shape: &Vec<usize>, v: i8) -> (r: SpinArray)
    requires
        extents_positive(shape@),
        site_count(shape@) <= isize::MAX,
    ensures
        spins_of(r) == Map::new(|p: Seq<usize>| in_bounds(p, shape@), |p: Seq<usize>| v),
{
    SpinArray { cells: ArrayD::from_elem(shape.clone(), v) }
}

/// Relies on indexing an `ndarray` array by a coordinate slice: the element
/// stored there.
#[verifier::external_body]
fn spin_at<const D: usize>(a: &SpinArray, pos: &[usize; D]) -> (r: i8)
    requires
        spins_of(*a).dom().contains(pos@),
    ensures
        r == spins_of(*a)[pos@],
{
    a.cells[&pos[..]]
}

/// Relies on mutable indexing of an `ndarray` array by a coordinate slice:
/// only the element stored there changes.
#[verifier::external_body]
fn set_spin_at<const D: usize>(a: &mut SpinArray, pos: &[usize; D], v: i8)
    requires
        spins_of(*old(a)).dom().contains(pos@),
    ensures
        spins_of(*final(a)) == spins_of(*old(a)).insert(pos@, v),
{
    a.cells[&pos[..]] = v;
}

/// The spin that a draw of the random source gives: +1 for an odd draw, -1
/// for an even one.
pub open spec fn spin_of_draw(r: u32) -> i8 {
    if r % 2 == 1 {
        1i8
    } else {
        -1i8
    }
}

/// Sum of the spins of the first `n` sites in row-major order.
pub open spec fn spin_total(spins: Map<Seq<usize>, i8>, shape: Seq<usize>, n: int) -> int
    decreases n,
{
    if n <= 0 {
        0
    } else {
        spin_total(spins, shape, n - 1) + spins[site(shape, n - 1)] as int
    }
}

/// Sum of the spins of the forward neighbours of `p` along the first `c` axes.
pub open spec fn forward_total(
    spins: Map<Seq<usize>, i8>,
    shape: Seq<usize>,
    periodic: bool,
    p: Seq<usize>,
    c: int,
) -> int
    decreases c,
{
    if c <= 0 {
        0
    } else {
        forward_total(spins, shape, periodic, p, c - 1) + match neighbor(p, c - 1, shape, periodic) {
            Some(q) => spins[q] as int,
            None => 0,
        }
    }
}

/// Sum over the first `n` sites of each spin times its forward neighbours:
/// every nearest-neighbour bond counted once.
pub open spec fn bond_total(spins: Map<Seq<usize>, i8>, shape: Seq<usize>, periodic: bool, n: int) -> int
    decreases n,
{
    if n <= 0 {
        0
    } else {
        bond_total(spins, shape, periodic, n - 1) + spins[site(shape, n - 1)] as int * forward_total(
            spins,
            shape,
            periodic,
            site(shape, n - 1),
            shape.len() as int,
        )
    }
}

/// A lattice of `D` axes of spins, each -1 or +1, with free boundaries or,
/// where `PBC` holds, periodic ones. It owns its random source.
pub struct Lattice<const D: usize, const PBC: bool> {
    shape: [usize; D],
    strides: Vec<usize>,
    count: usize,
    model: SpinArray,
    rng: ThreadRng,
}

impl<const D: usize, const PBC: bool> Lattice<D, PBC> {
    /// Extent of each axis.
    pub closed spec fn shape_spec(&self) -> Seq<usize> {
        self.shape@
    }

    /// The spin of each site, keyed by its coordinates.
    pub closed spec fn spins(&self) -> Map<Seq<usize>, i8> {
        spins_of(self.model)
    }

    /// The shape has `D` positive extents whose product, times `D + 1`, fits
    /// in `isize`; the array holds exactly the sites of that shape, each -1 or
    /// +1.
    pub closed spec fn wf(&self) -> bool {
        &&& self.shape@.len() == D
        &&& extents_positive(self.shape@)
        &&& site_count(self.shape@) * (D + 1) <= isize::MAX
        &&& self.count == site_count(self.shape@)
        &&& self.strides@.len() == D
        &&& forall|a: int| 0 <= a < D ==> self.strides@[a] == extent_product(self.shape@, a + 1)
        &&& forall|p: Seq<usize>| #[trigger]
            spins_of(self.model).dom().contains(p) <==> in_bounds(p, self.shape@)
        &&& forall|p: Seq<usize>| #[trigger]
            spins_of(self.model).dom().contains(p) ==> spins_of(self.model)[p] == 1
                || spins_of(self.model)[p] == -1
    }

    /// A well-formed lattice holds a spin of -1 or +1 at each of its sites
    /// and at nothing else.
    pub proof fn lemma_unit_spins(&self)
        requires
            self.wf(),
        ensures
            forall|p: Seq<usize>| #[trigger]
                self.spins().dom().contains(p) <==> in_bounds(p, self.shape_spec()),
            forall|p: Seq<usize>| #[trigger]
                self.spins().dom().contains(p) ==> self.spins()[p] == 1 || self.spins()[p] == -1,
    {
    }

    proof fn lemma_bounds(&self)
        requires
            self.wf(),
        ensures
            1 <= self.count <= isize::MAX,
            D < isize::MAX,
    {
        lemma_extent_product_positive(self.shape@, 0);
        let n = self.count as int;
        assert(n <= n * (D + 1) && D + 1 <= n * (D + 1)) by (nonlinear_arith)
            requires
                n >= 1,
        ;
    }

    /// A lattice of the given extents with every spin +1.
    pub fn new(d: [usize; D]) -> (r: Self)
        requires
            extents_positive(d@),
            site_count(d@) * (D + 1) <= isize::MAX,
        ensures
            r.wf(),
            r.shape_spec() == d@,
            forall|p: Seq<usize>| #[trigger]
                r.spins().dom().contains(p) ==> r.spins()[p] == 1,
    {
        let mut shape: Vec<usize> = Vec::new();
        let mut strides: Vec<usize> = Vec::new();
        let mut a: usize = 0;
        while a < D
            invariant
                a <= D,
                d@.len() == D,
                shape@ == d@.subrange(0, a as int),
                strides@.len() == a,
            decreases D - a,
        {
            shape.push(d[a]);
            strides.push(1);
            a = a + 1;
        }
        assert(shape@ =~= d@);
        let mut acc: usize = 1;
        let mut b: usize = D;
        proof {
            lemma_extent_product_mono(d@, 0, D as int);
        }
        while b > 0
            invariant
                b <= D,
                d@.len() == D,
                extents_positive(d@),
                site_count(d@) * (D + 1) <= isize::MAX,
                acc == extent_product(d@, b as int),
                strides@.len() == D,
                forall|i: int| b <= i < D ==> strides@[i] == extent_product(d@, i + 1),
            decreases b,
        {
            b = b - 1;
            strides.set(b, acc);
            proof {
                lemma_extent_product_mono(d@, 0, b as int);
                assert(site_count(d@) <= site_count(d@) * (D + 1)) by (nonlinear_arith);
                assert(extent_product(d@, b as int) == d@[b as int] as nat * extent_product(
                    d@,
                    b + 1,
                ));
                assert(acc as nat * d@[b as int] as nat == d@[b as int] as nat * acc as nat)
                    by (nonlinear_arith);
            }
            acc = acc * d[b];
        }
        proof {
            assert(site_count(d@) <= site_count(d@) * (D + 1)) by (nonlinear_arith);
        }
        let model = filled(&shape, 1);
        Lattice { shape: d, strides, count: acc, model, rng: rand::thread_rng() }
    }

    /// Coordinates of the `k`-th site in row-major order.
    fn site_at(&self, k: usize) -> (p: [usize; D])
        requires
            self.wf(),
        ensures
            p@ == site(self.shape@, k as int),
            in_bounds(p@, self.shape@),
    {
        let mut p: [usize; D] = [0; D];
        let mut a: usize = 0;
        while a < D
            invariant
                self.wf(),
                a <= D,
                p@.len() == D,
                forall|i: int| 0 <= i < a ==> p@[i] == site(self.shape@, k as int)[i],
            decreases D - a,
        {
            proof {
                lemma_extent_product_positive(self.shape@, a + 1);
            }
            p[a] = (k / self.strides[a]) % self.shape[a];
            a = a + 1;
        }
        proof {
            assert(p@ =~= site(self.shape@, k as int));
            lemma_site_in_bounds(self.shape@, k as int);
        }
        p
    }

    /// The forward neighbour of site `pos` along axis `index`, if it has one.
    pub fn get_neighbor(&self, pos: &[usize; D], index: usize) -> (r: Option<[usize; D]>)
        requires
            self.wf(),
            index < D,
            in_bounds(pos@, self.shape_spec()),
        ensures
            match r {
                Some(q) => neighbor(pos@, index as int, self.shape_spec(), PBC) == Some(q@),
                None => neighbor(pos@, index as int, self.shape_spec(), PBC) is None,
            },
    {
        let max = self.shape[index];
        let mut result = *pos;
        if PBC && max < 2 {
            None
        } else if pos[index] + 1 < max {
            result[index] = pos[index] + 1;
            proof {
                assert(result@ =~= pos@.update(index as int, (pos@[index as int] + 1) as usize));
            }
            Some(result)
        } else if PBC {
            result[index] = 0;
            proof {
                assert(result@ =~= pos@.update(index as int, 0));
            }
            Some(result)
        } else {
            None
        }
    }

    /// Sum of all spins, widened so that no lattice that fits in memory
    /// can overflow it.
    pub fn model_sum(&self) -> (r: i64)
        requires
            self.wf(),
        ensures
            r == spin_total(self.spins(), self.shape_spec(), site_count(self.shape_spec()) as int),
            -site_count(self.shape_spec()) <= r <= site_count(self.shape_spec()),
    {
        let mut sum: i64 = 0;
        let mut k: usize = 0;
        proof {
            self.lemma_bounds();
        }
        while k < self.count
            invariant
                self.wf(),
                self.count <= isize::MAX,
                k <= self.count,
                sum == spin_total(self.spins(), self.shape_spec(), k as int),
                -(k as int) <= sum <= k,
            decreases self.count - k,
        {
            let p = self.site_at(k);
            let v = spin_at(&self.model, &p);
            proof {
                assert(spins_of(self.model).dom().contains(p@));
            }
            sum = sum + v as i64;
            k = k + 1;
        }
        sum
    }

    /// Sum of the spins of the forward neighbours of `pos`.
    fn forward_sum(&self, pos: &[usize; D]) -> (r: i64)
        requires
            self.wf(),
            in_bounds(pos@, self.shape_spec()),
        ensures
            r == forward_total(self.spins(), self.shape_spec(), PBC, pos@, D as int),
            -(D as int) <= r <= D,
    {
        let mut s: i64 = 0;
        let mut a: usize = 0;
        proof {
            self.lemma_bounds();
        }
        while a < D
            invariant
                self.wf(),
                D < isize::MAX,
                in_bounds(pos@, self.shape_spec()),
                a <= D,
                s == forward_total(self.spins(), self.shape_spec(), PBC, pos@, a as int),
                -(a as int) <= s <= a,
            decreases D - a,
        {
            proof {
                lemma_neighbor_in_bounds(pos@, a as int, self.shape@, PBC);
            }
            match self.get_neighbor(pos, a) {
                Some(q) => {
                    let w = spin_at(&self.model, &q);
                    proof {
                        assert(spins_of(self.model).dom().contains(q@));
                    }
                    s = s + w as i64;
                },
                None => {},
            }
            a = a + 1;
        }
        s
    }

    /// Sum over all nearest-neighbour bonds of the product of their two
    /// spins, each bond counted once.
    pub fn pair_sum(&self) -> (r: i64)
        requires
            self.wf(),
        ensures
            r == bond_total(self.spins(), self.shape_spec(), PBC, site_count(self.shape_spec()) as int),
    {
        let mut sum: i64 = 0;
        let mut k: usize = 0;
        while k < self.count
            invariant
                self.wf(),
                k <= self.count,
                sum == bond_total(self.spins(), self.shape_spec(), PBC, k as int),
                -(k as int * D as int) <= sum <= k as int * D as int,
                self.count * (D + 1) <= isize::MAX,
            decreases self.count - k,
        {
            let p = self.site_at(k);
            let v = spin_at(&self.model, &p);
            let s = self.forward_sum(&p);
            proof {
                assert(spins_of(self.model).dom().contains(p@));
                if v == 1 {
                    assert(v as int * s as int == s);
                } else {
                    assert(v as int * s as int == -s) by (nonlinear_arith)
                        requires
                            v == -1,
                    ;
                }
                let kk = k as int;
                let dd = D as int;
                let nn = self.count as int;
                assert((kk + 1) * dd <= nn * (dd + 1)) by (nonlinear_arith)
                    requires
                        0 <= kk < nn,
                        dd >= 0,
                ;
                assert(kk * dd + dd == (kk + 1) * dd) by (nonlinear_arith);
                assert(-1 <= v <= 1);
            }
            sum = sum + v as i64 * s;
            k = k + 1;
        }
        sum
    }

    /// Redraws every spin independently, -1 or +1 with equal chance: one
    /// `u32` is drawn per site, in row-major order, and handed to
    /// `set_from_draws`.
    pub fn random_sample(&mut self)
        requires
            old(self).wf(),
        ensures
            final(self).wf(),
            final(self).shape_spec() == old(self).shape_spec(),
            exists|draws: Seq<u32>|
                draws.len() == site_count(final(self).shape_spec()) && forall|k: int|
                    0 <= k < draws.len() ==> #[trigger] final(self).spins()[site(
                        final(self).shape_spec(),
                        k,
                    )] == spin_of_draw(draws[k]),
    {
        let mut draws: Vec<u32> = Vec::new();
        let mut k: usize = 0;
        while k < self.count
            invariant
                self.wf(),
                self.shape@ == old(self).shape@,
                spins_of(self.model) == spins_of(old(self).model),
                k <= self.count,
                draws@.len() == k,
            decreases self.count - k,
        {
            draws.push(next_u32(&mut self.rng));
            k = k + 1;
        }
        self.set_from_draws(&draws);
        proof {
            let ds = draws@;
            assert(ds.len() == site_count(self.shape@) && forall|k: int|
                0 <= k < ds.len() ==> #[trigger] self.spins()[site(self.shape@, k)]
                    == spin_of_draw(ds[k]));
        }
    }

    /// Sets the spin of the `k`-th site in row-major order from the `k`-th
    /// draw: +1 for an odd draw, -1 for an even one.
    pub fn set_from_draws(&mut self, draws: &Vec<u32>)
        requires
            old(self).wf(),
            draws@.len() == site_count(old(self).shape_spec()),
        ensures
            final(self).wf(),
            final(self).shape_spec() == old(self).shape_spec(),
            forall|k: int|
                0 <= k < draws@.len() ==> #[trigger] final(self).spins()[site(
                    final(self).shape_spec(),
                    k,
                )] == spin_of_draw(draws@[k]),
    {
        proof {
            lemma_site_enumeration(self.shape@);
        }
        let mut k: usize = 0;
        while k < self.count
            invariant
                self.wf(),
                self.shape@ == old(self).shape@,
                draws@.len() == self.count,
                k <= self.count,
                forall|k1: int, k2: int|
                    0 <= k1 < site_count(self.shape@) && 0 <= k2 < site_count(self.shape@)
                        && #[trigger] site(self.shape@, k1) == #[trigger] site(self.shape@, k2)
                        ==> k1 == k2,
                forall|i: int|
                    0 <= i < k ==> #[trigger] spins_of(self.model)[site(self.shape@, i)]
                        == spin_of_draw(draws@[i]),
            decreases self.count - k,
        {
            let p = self.site_at(k);
            let v: i8 = if draws[k] % 2 == 1 {
                1
            } else {
                -1
            };
            proof {
                assert(spins_of(self.model).dom().contains(p@));
            }
            let ghost prev = spins_of(self.model);
            set_spin_at(&mut self.model, &p, v);
            proof {
                assert(spins_of(self.model).dom() =~= prev.dom());
                assert forall|i: int| 0 <= i < k + 1 implies #[trigger] spins_of(self.model)[site(
                    self.shape@,
                    i,
                )] == spin_of_draw(draws@[i]) by {
                    if i < k {
                        assert(site(self.shape@, i) != site(self.shape@, k as int));
                    }
                }
            }
            k = k + 1;
        }
    }

    /// The spin at site `pos`.
    pub fn get_spin(&self, pos: &[usize; D]) -> (r: i8)
        requires
            self.wf(),
            in_bounds(pos@, self.shape_spec()),
        ensures
            r == self.spins()[pos@],
            r == 1 || r == -1,
    {
        proof {
            assert(spins_of(self.model).dom().contains(pos@));
        }
        spin_at(&self.model, pos)
    }

    /// Sets the spin at site `pos`, leaving every other site as it was.
    pub fn set_spin(&mut self, pos: &[usize; D], v: i8)
        requires
            old(self).wf(),
            in_bounds(pos@, old(self).shape_spec()),
            v == 1 || v == -1,
        ensures
            final(self).wf(),
            final(self).shape_spec() == old(self).shape_spec(),
            final(self).spins() == old(self).spins().insert(pos@, v),
    {
        proof {
            assert(spins_of(self.model).dom().contains(pos@));
        }
        set_spin_at(&mut self.model, pos, v);
        proof {
            assert(spins_of(self.model).dom() =~= spins_of(old(self).model).dom());
        }
    }

    /// Number of sites.
    pub fn len(&self) -> (r: usize)
        requires
            self.wf(),
        ensures
            r == site_count(self.shape_spec()),
    {
        self.count
    }

    /// Extent of each axis.
    pub fn get_shape(&self) -> (r: [usize; D])
        ensures
            r@ == self.shape_spec(),
    {
        self.shape
    }
}

} // verus!
