use mnca_sim::array2d::Array2D;
use mnca_sim::cache::KernelCache;
use mnca_sim::kernels::{
    basic_mnca, calculate_block_order_from_kernel_width, count_true, draw_ring, larger_than_life_layered_kernel,
    life_layered_kernel, Decider, Life,
};
use mnca_sim::sim::{Block, Kernel, KernelResult};

#[test]
fn test_block_order() {
    assert_eq!(calculate_block_order_from_kernel_width(3), 1);
    assert_eq!(calculate_block_order_from_kernel_width(5), 2);
    assert_eq!(calculate_block_order_from_kernel_width(9), 3);
    assert_eq!(calculate_block_order_from_kernel_width(17), 4);
    assert_eq!(calculate_block_order_from_kernel_width(33), 5);
}

#[test]
fn builder_orders_match_mask_widths() {
    assert_eq!(life_layered_kernel().order(), 1);
    assert_eq!(larger_than_life_layered_kernel().order(), 4);
    assert_eq!(basic_mnca().order(), 4);
    assert_eq!(Life.order(), 1);
}

#[test]
fn ring_populations() {
    let mut disk = Array2D::filled(17, 17, false);
    draw_ring(&mut disk, 0, 6 * 6);
    // squared radius < 36 keeps |dx|, |dy| <= 5: a disk of 109 cells.
    assert_eq!(count_true(&disk), 109);

    // The two MNCA rings have 108 and 36 live cells respectively.
    let mut outer = Array2D::filled(17, 17, false);
    draw_ring(&mut outer, 25, 56);
    assert_eq!(count_true(&outer), 108);

    let mut inner = Array2D::filled(17, 17, false);
    draw_ring(&mut inner, 1, 12);
    assert_eq!(count_true(&inner), 36);
}

#[test]
fn decider_life_rules() {
    let d = Decider::Life;
    assert!(!d.decide(false, &vec![2]));
    assert!(d.decide(false, &vec![3]));
    assert!(d.decide(true, &vec![2]));
    assert!(d.decide(true, &vec![3]));
    assert!(!d.decide(true, &vec![4]));
    assert!(!d.decide(true, &vec![1]));
    assert!(!d.decide(false, &vec![0]));
}

#[test]
fn decider_larger_than_life_rules() {
    let d = Decider::LargerThanLife;
    assert!(!d.decide(true, &vec![0]));
    assert!(!d.decide(true, &vec![33]));
    assert!(d.decide(false, &vec![34]));
    assert!(d.decide(true, &vec![45]));
    // between the birth and death bands the center keeps its state
    assert!(d.decide(true, &vec![50]));
    assert!(!d.decide(false, &vec![50]));
    assert!(!d.decide(true, &vec![58]));
    assert!(!d.decide(true, &vec![121]));
    assert!(d.decide(true, &vec![122]));
    assert!(!d.decide(false, &vec![122]));
}

#[test]
fn decider_mnca_rules() {
    let d = Decider::Mnca;
    // outer average in [0.210, 0.220] (counts of 23 over 108) turns the cell on
    assert!(d.decide(false, &vec![23, 0]));
    // outer average in [0.350, 0.500] turns it off
    assert!(!d.decide(true, &vec![38, 0]));
    assert!(!d.decide(true, &vec![54, 0]));
    // inner average in [0.430, 0.550] turns it on
    assert!(d.decide(false, &vec![0, 16]));
    assert!(d.decide(false, &vec![0, 19]));
    // inner average in [0.100, 0.280] turns it off
    assert!(!d.decide(true, &vec![0, 4]));
    // the last outer band wins over an earlier "on"
    assert!(!d.decide(false, &vec![13, 16]));
    // untouched counts keep the center
    assert!(d.decide(true, &vec![0, 0]));
    assert!(!d.decide(false, &vec![0, 0]));
}

#[test]
fn life_kernel_matches_layered_life() {
    // The hand-written Life kernel and the layered Life kernel realize the
    // same rule: compare them over a sweep of 2x2 block assemblies.
    let mut bare = Life;
    let mut layered = life_layered_kernel();
    for pattern in 0u32..65536 {
        let cells: Vec<bool> = (0..16).map(|i| (pattern >> i) & 1 == 1).collect();
        let mk = |r: std::ops::Range<usize>| -> Block { Block::new(&Life, cells[r].to_vec()) };
        let (a, _) = bare.exec(mk(0..4), mk(4..8), mk(8..12), mk(12..16));
        let (b, _) = layered.exec(mk(0..4), mk(4..8), mk(8..12), mk(12..16));
        assert_eq!(a.data(), b.data());
    }
}

#[test]
fn memoizer_counts_exactly_one_hit_per_repeat() {
    let mut cache = KernelCache::new(life_layered_kernel());
    let mk = |cells: [bool; 4]| Block::new(&Life, cells.to_vec());
    let quad = [
        [true, false, false, true],
        [false, true, false, false],
        [false, false, true, false],
        [true, true, false, false],
    ];
    assert_eq!(cache.hits(), 0);
    let (r1, t1) = cache.exec(mk(quad[0]), mk(quad[1]), mk(quad[2]), mk(quad[3]));
    // first sight of this assembly: a miss, recorded but not counted
    assert_eq!(cache.hits(), 0);
    assert_eq!(cache.solutions_len(), 1);
    let (r2, t2) = cache.exec(mk(quad[0]), mk(quad[1]), mk(quad[2]), mk(quad[3]));
    // the repeat probes the recorded entry: exactly one hit
    assert_eq!(cache.hits(), 1);
    assert_eq!(cache.solutions_len(), 1);
    assert_eq!(r1.data(), r2.data());
    assert!(matches!(t1, KernelResult::NewBlock));
    assert!(matches!(t2, KernelResult::NewBlock));
    // a different assembly misses again
    let (_r3, _t3) = cache.exec(mk(quad[1]), mk(quad[0]), mk(quad[2]), mk(quad[3]));
    assert_eq!(cache.hits(), 1);
    assert_eq!(cache.solutions_len(), 2);
    // the four distinct input contents and two outputs fill the table
    assert!(cache.values_len() >= 4);
}

#[test]
fn block_accessors() {
    let ker = Life;
    assert_eq!(Block::width(&ker), 2);
    let mut b = Block::zero(&ker);
    assert_eq!(b.data().len(), 4);
    assert!(b.data().iter().all(|&c| !c));
    b.set(&ker, (1, 0), true);
    assert!(b.get(&ker, (1, 0)));
    assert!(!b.get(&ker, (0, 0)));
    assert_eq!(Block::index(&ker, (1, 1)), 3);
    // coordinates wrap around the block side
    assert_eq!(Block::index(&ker, (3, 2)), 1);
    let z = Block::zeros_like(&b);
    assert_eq!(z.data().len(), 4);
    assert!(z.data().iter().all(|&c| !c));
    let copy = b.clone();
    assert_eq!(copy.data(), b.data());
    let mut c = Block::new(&ker, vec![true, false, true, false]);
    c.data_mut()[1] = true;
    assert_eq!(c.data(), &vec![true, true, true, false]);
}

#[test]
fn array2d_accessors() {
    let mut a = Array2D::from_array(3, vec![1u8, 2, 3, 4, 5, 6]);
    assert_eq!(a.width(), 3);
    assert_eq!(a.height(), 2);
    assert_eq!(a.len(), 6);
    assert_eq!(*a.get(2, 1), 6);
    a.set(0, 1, 9);
    assert_eq!(*a.get(0, 1), 9);
    assert_eq!(a.data(), &vec![1, 2, 3, 9, 5, 6]);
    let f = Array2D::filled(2, 2, true);
    assert_eq!(f.data(), &vec![true; 4]);
}
