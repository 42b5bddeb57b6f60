//! Hypercubic lattice geometry: extents, row-major enumeration of sites and
//! the forward-neighbour rule under free or periodic boundaries.

use vstd::prelude::*;

verus! {

/// Product of the extents from axis `a` on.
pub open spec fn extent_product(shape: Seq<usize>, a: int) -> nat
    decreases shape.len() - a,
{
    if a >= shape.len() || a < 0 {
        1
    } else {
        shape[a] as nat * extent_product(shape, a + 1)
    }
}

/// Number of sites of a lattice of the given shape.
pub open spec fn site_count(shape: Seq<usize>) -> nat {
    extent_product(shape, 0)
}

/// `p` is the coordinate tuple of a site of a lattice of the given shape.
pub open spec fn in_bounds(p: Seq<usize>, shape: Seq<usize>) -> bool {
    &&& p.len() == shape.len()
    &&& forall|a: int| 0 <= a < p.len() ==> p[a] < shape[a]
}

/// Every axis has at least one site.
pub open spec fn extents_positive(shape: Seq<usize>) -> bool {
    forall|a: int| 0 <= a < shape.len() ==> shape[a] >= 1
}

/// Coordinates of the `k`-th site in row-major order (last axis fastest).
pub open spec fn site(shape: Seq<usize>, k: int) -> Seq<usize> {
    Seq::new(shape.len(), |a: int| ((k / extent_product(shape, a + 1) as int) % shape[a] as int) as usize)
}

/// The forward neighbour of site `p` along axis `a`: under free boundaries
/// none past the last index; under periodic ones the last index wraps to 0,
/// except on an axis of extent 1, which has no neighbour.
pub open spec fn neighbor(p: Seq<usize>, a: int, shape: Seq<usize>, periodic: bool) -> Option<
    Seq<usize>,
> {
    if periodic && shape[a] < 2 {
        None
    } else if p[a] + 1 < shape[a] {
        Some(p.update(a, (p[a] + 1) as usize))
    } else if periodic {
        Some(p.update(a, 0))
    } else {
        None
    }
}

/// With every extent positive, a product over fewer axes is no larger.
pub proof fn lemma_extent_product_mono(shape: Seq<usize>, a: int, b: int)
    requires
        extents_positive(shape),
        0 <= a <= b,
    ensures
        extent_product(shape, b) <= extent_product(shape, a),
        extent_product(shape, b) >= 1,
    decreases b - a,
{
    if a < b {
        lemma_extent_product_mono(shape, a + 1, b);
        if a < shape.len() {
            assert(shape[a] as nat * extent_product(shape, a + 1) >= extent_product(shape, a + 1))
                by (nonlinear_arith)
                requires
                    shape[a] >= 1,
            ;
        }
    } else {
        lemma_extent_product_positive(shape, b);
    }
}

pub proof fn lemma_extent_product_positive(shape: Seq<usize>, a: int)
    requires
        extents_positive(shape),
        0 <= a,
    ensures
        extent_product(shape, a) >= 1,
    decreases shape.len() - a,
{
    if a < shape.len() {
        lemma_extent_product_positive(shape, a + 1);
        assert(shape[a] as nat * extent_product(shape, a + 1) >= 1) by (nonlinear_arith)
            requires
                shape[a] >= 1,
                extent_product(shape, a + 1) >= 1,
        ;
    }
}

/// Every row-major site index names a site of the lattice.
pub proof fn lemma_site_in_bounds(shape: Seq<usize>, k: int)
    requires
        extents_positive(shape),
        0 <= k,
    ensures
        in_bounds(site(shape, k), shape),
{
    assert forall|a: int| 0 <= a < shape.len() implies site(shape, k)[a] < shape[a] by {
        lemma_extent_product_positive(shape, a + 1);
        let d = extent_product(shape, a + 1) as int;
        let m = shape[a] as int;
        assert(k / d >= 0) by (nonlinear_arith)
            requires
                k >= 0,
                d >= 1,
        ;
        assert((k / d) % m < m) by (nonlinear_arith)
            requires
                k / d >= 0,
                m >= 1,
        ;
    }
}

/// Row-major position of the coordinates `p`, counting axes from `i` on.
pub open spec fn flat_index(shape: Seq<usize>, p: Seq<usize>, i: int) -> int
    decreases shape.len() - i,
{
    if i >= shape.len() || i < 0 {
        0
    } else {
        p[i] as int * extent_product(shape, i + 1) as int + flat_index(shape, p, i + 1)
    }
}

proof fn lemma_flat_of_site(shape: Seq<usize>, k: int, i: int)
    requires
        extents_positive(shape),
        0 <= k,
        0 <= i <= shape.len(),
    ensures
        flat_index(shape, site(shape, k), i) == k % (extent_product(shape, i) as int),
    decreases shape.len() - i,
{
    if i == shape.len() {
        vstd::arithmetic::div_mod::lemma_fundamental_div_mod_converse_mod(k, 1, k, 0);
    } else {
        lemma_flat_of_site(shape, k, i + 1);
        lemma_extent_product_positive(shape, i + 1);
        let d = extent_product(shape, i + 1) as int;
        let m = shape[i] as int;
        vstd::arithmetic::div_mod::lemma_breakdown(k, d, m);
        vstd::arithmetic::div_mod::lemma_mod_bound(k / d, m);
        assert(d * m == m * d) by (nonlinear_arith);
        assert(((k / d) % m) * d == d * ((k / d) % m)) by (nonlinear_arith);
    }
}

proof fn lemma_flat_bound(shape: Seq<usize>, p: Seq<usize>, i: int)
    requires
        extents_positive(shape),
        in_bounds(p, shape),
        0 <= i <= shape.len(),
    ensures
        0 <= flat_index(shape, p, i) < extent_product(shape, i),
    decreases shape.len() - i,
{
    if i < shape.len() {
        lemma_flat_bound(shape, p, i + 1);
        let d = extent_product(shape, i + 1) as int;
        let x = p[i] as int;
        let m = shape[i] as int;
        let f = flat_index(shape, p, i + 1);
        assert(0 <= x * d + f < m * d) by (nonlinear_arith)
            requires
                0 <= x < m,
                0 <= f < d,
        ;
    }
}

proof fn lemma_flat_split(shape: Seq<usize>, p: Seq<usize>, i: int) -> (m: int)
    requires
        0 <= i <= shape.len(),
    ensures
        flat_index(shape, p, 0) == m * extent_product(shape, i) + flat_index(shape, p, i),
    decreases i,
{
    if i == 0 {
        0
    } else {
        let m0 = lemma_flat_split(shape, p, i - 1);
        let d = extent_product(shape, i) as int;
        let s = shape[i - 1] as int;
        let x = p[i - 1] as int;
        assert(m0 * (s * d) + (x * d + flat_index(shape, p, i)) == (m0 * s + x) * d + flat_index(
            shape,
            p,
            i,
        )) by (nonlinear_arith);
        m0 * s + x
    }
}

proof fn lemma_site_of_flat(shape: Seq<usize>, p: Seq<usize>)
    requires
        extents_positive(shape),
        in_bounds(p, shape),
    ensures
        0 <= flat_index(shape, p, 0) < site_count(shape),
        site(shape, flat_index(shape, p, 0)) == p,
{
    let k = flat_index(shape, p, 0);
    lemma_flat_bound(shape, p, 0);
    assert forall|a: int| 0 <= a < shape.len() implies site(shape, k)[a] == p[a] by {
        let d = extent_product(shape, a + 1) as int;
        let m = shape[a] as int;
        lemma_extent_product_positive(shape, a + 1);
        lemma_flat_bound(shape, p, a);
        lemma_flat_bound(shape, p, a + 1);
        let ma = lemma_flat_split(shape, p, a);
        let mb = lemma_flat_split(shape, p, a + 1);
        vstd::arithmetic::div_mod::lemma_fundamental_div_mod_converse_mod(
            k,
            extent_product(shape, a) as int,
            ma,
            flat_index(shape, p, a),
        );
        vstd::arithmetic::div_mod::lemma_fundamental_div_mod_converse_mod(
            k,
            d,
            mb,
            flat_index(shape, p, a + 1),
        );
        vstd::arithmetic::div_mod::lemma_breakdown(k, d, m);
        vstd::arithmetic::div_mod::lemma_mod_bound(k / d, m);
        let x = (k / d) % m;
        assert(d * m == m * d) by (nonlinear_arith);
        assert(d * x == p[a] as int * d ==> x == p[a] as int) by (nonlinear_arith)
            requires
                d > 0,
        ;
    }
    assert(site(shape, k) =~= p);
}

/// The row-major enumeration visits every site of the lattice exactly once:
/// each index below the site count names a site, no two indices name the
/// same one, and every site is named.
pub proof fn lemma_site_enumeration(shape: Seq<usize>)
    requires
        extents_positive(shape),
    ensures
        forall|k: int| 0 <= k < site_count(shape) ==> #[trigger] in_bounds(site(shape, k), shape),
        forall|k1: int, k2: int|
            0 <= k1 < site_count(shape) && 0 <= k2 < site_count(shape) && #[trigger] site(shape, k1)
                == #[trigger] site(shape, k2) ==> k1 == k2,
        forall|p: Seq<usize>| #[trigger]
            in_bounds(p, shape) ==> exists|k: int|
                0 <= k < site_count(shape) && #[trigger] site(shape, k) == p,
{
    assert forall|k: int| 0 <= k < site_count(shape) implies #[trigger] in_bounds(
        site(shape, k),
        shape,
    ) by {
        lemma_site_in_bounds(shape, k);
    }
    assert forall|k1: int, k2: int|
        0 <= k1 < site_count(shape) && 0 <= k2 < site_count(shape) && #[trigger] site(shape, k1)
            == #[trigger] site(shape, k2) implies k1 == k2 by {
        lemma_flat_of_site(shape, k1, 0);
        lemma_flat_of_site(shape, k2, 0);
        vstd::arithmetic::div_mod::lemma_small_mod(k1 as nat, site_count(shape));
        vstd::arithmetic::div_mod::lemma_small_mod(k2 as nat, site_count(shape));
    }
    assert forall|p: Seq<usize>| #[trigger] in_bounds(p, shape) implies exists|k: int|
        0 <= k < site_count(shape) && #[trigger] site(shape, k) == p by {
        lemma_site_of_flat(shape, p);
    }
}

/// A forward neighbour of a site is a site.
pub proof fn lemma_neighbor_in_bounds(p: Seq<usize>, a: int, shape: Seq<usize>, periodic: bool)
    requires
        in_bounds(p, shape),
        0 <= a < shape.len(),
    ensures
        neighbor(p, a, shape, periodic) matches Some(q) ==> in_bounds(q, shape),
{
}

} // verus!
