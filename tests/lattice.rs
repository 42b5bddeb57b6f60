use rx_ising::lattice::Lattice;

const FLOAT_CRITERIA: f64 = 1e-6;

fn energy<const D: usize, const PBC: bool>(lattice: &Lattice<D, PBC>, b: f64, j: f64) -> f64 {
    -b * (lattice.model_sum() as f64) - j * (lattice.pair_sum() as f64)
}

fn pairwise_contribution<const D: usize, const PBC: bool>(lattice: &Lattice<D, PBC>, j: f64) -> f64 {
    j * (lattice.pair_sum() as f64)
}

fn order_parameter<const D: usize, const PBC: bool>(lattice: &Lattice<D, PBC>) -> f64 {
    (lattice.model_sum() as f64) / (lattice.len() as f64)
}

fn stripes<const PBC: bool>(lattice: &mut Lattice<2, PBC>, d: usize) {
    for i in 0..d {
        for j in 0..d {
            lattice.set_spin(&[i, j], if j % 3 == 0 { -1 } else { 1 });
        }
    }
}

#[test]
fn test_neighbors_pbc() {
    let ising = Lattice::<3, true>::new([2, 1, 3]);

    assert_eq!(ising.get_neighbor(&[1, 0, 2], 0), Some([0, 0, 2]));
    assert_eq!(ising.get_neighbor(&[1, 0, 2], 1), None);
    assert_eq!(ising.get_neighbor(&[1, 0, 2], 2), Some([1, 0, 0]));

    assert_eq!(ising.get_neighbor(&[1, 0, 1], 2), Some([1, 0, 2]));
}

#[test]
fn test_neighbors_no_pbc() {
    let ising = Lattice::<3, false>::new([2, 1, 3]);

    assert_eq!(ising.get_neighbor(&[1, 0, 1], 0), None);
    assert_eq!(ising.get_neighbor(&[1, 0, 1], 1), None);
    assert_eq!(ising.get_neighbor(&[1, 0, 1], 2), Some([1, 0, 2]));
}

#[test]
fn test_order_parameter() {
    let d = 99;
    let mut ising = Lattice::<2, false>::new([d, d]);

    for i in 0..d {
        for j in 0..d {
            ising.set_spin(&[i, j], 1);
        }
    }
    assert!((order_parameter(&ising) - 1.0).abs() < FLOAT_CRITERIA);

    stripes(&mut ising, d);
    assert!((order_parameter(&ising) - 1.0 / 3.0).abs() < FLOAT_CRITERIA);
}

#[test]
fn test_energy_external_field() {
    let d = 99;
    let mut ising = Lattice::<2, false>::new([d, d]);
    stripes(&mut ising, d);
    // 3267 = 99 * 99 / 3
    assert!((energy(&ising, 0.5, 0.0) - (-0.5) * 3267.0).abs() < FLOAT_CRITERIA);
}

#[test]
fn test_energy_pairwise_no_pbc() {
    let d = 3;
    let mut ising = Lattice::<2, false>::new([d, d]);
    stripes(&mut ising, d);
    // 6.0 is the no pbc pairwise value
    assert!((pairwise_contribution(&ising, 0.5) - 0.5 * 6.0).abs() < FLOAT_CRITERIA);
    assert!((energy(&ising, 0.0, 0.5) + 0.5 * 6.0).abs() < FLOAT_CRITERIA);
}

#[test]
fn test_energy_pairwise_pbc() {
    let d = 3;
    let mut ising = Lattice::<2, true>::new([d, d]);
    stripes(&mut ising, d);
    // 6.0 is the pbc pairwise value.
    assert!((pairwise_contribution(&ising, 0.5) - 0.5 * 6.0).abs() < FLOAT_CRITERIA);
    assert!((energy(&ising, 0.0, 0.5) + 0.5 * 6.0).abs() < FLOAT_CRITERIA);
}

#[test]
fn new_lattice_is_all_up() {
    let ising = Lattice::<2, true>::new([4, 5]);
    assert_eq!(ising.len(), 20);
    assert_eq!(ising.get_shape(), [4, 5]);
    assert_eq!(ising.model_sum(), 20);
    // every site has two forward bonds on a periodic 4x5 lattice
    assert_eq!(ising.pair_sum(), 40);
}

#[test]
fn free_boundaries_count_fewer_bonds() {
    let ising = Lattice::<2, false>::new([4, 5]);
    // 4 * 4 bonds along the second axis, 3 * 5 along the first
    assert_eq!(ising.pair_sum(), 31);
}

#[test]
fn stripe_sums_are_exact() {
    let mut ising = Lattice::<2, false>::new([99, 99]);
    stripes(&mut ising, 99);
    assert_eq!(ising.model_sum(), 3267);
    let mut small = Lattice::<2, false>::new([3, 3]);
    stripes(&mut small, 3);
    assert_eq!(small.pair_sum(), 6);
    let mut ring = Lattice::<2, true>::new([3, 3]);
    stripes(&mut ring, 3);
    assert_eq!(ring.pair_sum(), 6);
}

#[test]
fn set_spin_changes_one_site() {
    let mut ising = Lattice::<3, false>::new([2, 2, 2]);
    ising.set_spin(&[1, 0, 1], -1);
    assert_eq!(ising.get_spin(&[1, 0, 1]), -1);
    assert_eq!(ising.get_spin(&[1, 0, 0]), 1);
    assert_eq!(ising.model_sum(), 6);
}

#[test]
fn one_dimensional_chain() {
    let mut chain = Lattice::<1, true>::new([4]);
    chain.set_spin(&[1], -1);
    // bonds: (0,1) -1, (1,2) -1, (2,3) 1, (3,0) 1
    assert_eq!(chain.pair_sum(), 0);
    assert_eq!(chain.get_neighbor(&[3], 0), Some([0]));
    let flat = Lattice::<1, true>::new([1]);
    assert_eq!(flat.get_neighbor(&[0], 0), None);
    assert_eq!(flat.pair_sum(), 0);
}

#[test]
fn random_sample_keeps_unit_spins() {
    let mut ising = Lattice::<2, false>::new([10, 10]);
    let mut seen_down = false;
    for _ in 0..20 {
        ising.random_sample();
        for i in 0..10 {
            for j in 0..10 {
                let s = ising.get_spin(&[i, j]);
                assert!(s == 1 || s == -1);
                seen_down = seen_down || s == -1;
            }
        }
        let m = ising.model_sum();
        assert!(m >= -100 && m <= 100);
        assert_eq!(m % 2, 0);
    }
    assert!(seen_down);
}

#[test]
fn lattice_reads_are_stable() {
    let mut ising = Lattice::<2, true>::new([3, 3]);
    stripes(&mut ising, 3);
    assert_eq!(ising.model_sum(), ising.model_sum());
    assert_eq!(ising.pair_sum(), ising.pair_sum());
    assert_eq!(ising.get_spin(&[2, 0]), ising.get_spin(&[2, 0]));
}

#[test]
fn draws_set_spins_in_row_major_order() {
    let mut ising = Lattice::<2, false>::new([2, 3]);
    ising.set_from_draws(&vec![1, 2, 7, 0, 4, u32::MAX]);
    assert_eq!(ising.get_spin(&[0, 0]), 1);
    assert_eq!(ising.get_spin(&[0, 1]), -1);
    assert_eq!(ising.get_spin(&[0, 2]), 1);
    assert_eq!(ising.get_spin(&[1, 0]), -1);
    assert_eq!(ising.get_spin(&[1, 1]), -1);
    assert_eq!(ising.get_spin(&[1, 2]), 1);
    assert_eq!(ising.model_sum(), 0);
}
