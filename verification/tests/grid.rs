use mnca_sim::cache::KernelCache;
use mnca_sim::kernels::{larger_than_life_layered_kernel, life_layered_kernel, LayeredKernel};
use mnca_sim::sim::{Dense, Kernel};

fn live_cells<K: Kernel>(grid: &Dense<K>) -> Vec<(usize, usize)> {
    let (w, h) = grid.pixel_dims();
    let mut live = Vec::new();
    for y in 0..h {
        for x in 0..w {
            if grid.get_pixel((x, y)) {
                live.push((x, y));
            }
        }
    }
    live
}

fn seed<K: Kernel>(grid: &mut Dense<K>, cells: &[(usize, usize)]) {
    for &(x, y) in cells {
        grid.set_pixel((x, y), true);
    }
}

fn life_grid_6x6() -> Dense<LayeredKernel> {
    // block side 2, so a 3x3-block viewport is 6x6 cells
    Dense::new(life_layered_kernel(), 3, 3)
}

#[test]
fn blinker_oscillates() {
    let mut grid = life_grid_6x6();
    assert_eq!(grid.pixel_dims(), (6, 6));
    seed(&mut grid, &[(1, 2), (2, 2), (3, 2)]);
    grid.step();
    assert_eq!(live_cells(&grid), vec![(2, 1), (2, 2), (2, 3)]);
    grid.step();
    assert_eq!(live_cells(&grid), vec![(1, 2), (2, 2), (3, 2)]);
}

#[test]
fn block_is_still_life() {
    let mut grid = life_grid_6x6();
    let block = vec![(2, 2), (3, 2), (2, 3), (3, 3)];
    seed(&mut grid, &block);
    for _ in 0..7 {
        grid.step();
        let mut live = live_cells(&grid);
        live.sort();
        let mut expected = block.clone();
        expected.sort();
        assert_eq!(live, expected);
    }
}

#[test]
fn glider_translates() {
    // 5x5 blocks of side 2: a 10x10-cell viewport
    let mut grid = Dense::new(life_layered_kernel(), 5, 5);
    assert_eq!(grid.pixel_dims(), (10, 10));
    let glider = vec![(2, 1), (3, 2), (1, 3), (2, 3), (3, 3)];
    seed(&mut grid, &glider);
    for _ in 0..4 {
        grid.step();
    }
    let mut live = live_cells(&grid);
    live.sort();
    let mut expected: Vec<(usize, usize)> = glider.iter().map(|&(x, y)| (x + 1, y + 1)).collect();
    expected.sort();
    assert_eq!(live, expected);
}

#[test]
fn empty_grid_stays_empty() {
    // 10x10 blocks of side 2: a 20x20-cell viewport, seeded all dead
    let mut grid = Dense::new(life_layered_kernel(), 10, 10);
    assert_eq!(grid.pixel_dims(), (20, 20));
    for _ in 0..100 {
        grid.step();
        assert!(live_cells(&grid).is_empty());
    }
}

#[test]
fn larger_than_life_singleton_dies() {
    // 3x3 blocks of side 16: a 48x48-cell viewport with one live cell at the
    // center; a single neighbor is far below the survival band, so one step
    // kills it.
    let mut grid = Dense::new(larger_than_life_layered_kernel(), 3, 3);
    assert_eq!(grid.pixel_dims(), (48, 48));
    grid.set_pixel((24, 24), true);
    grid.step();
    assert!(live_cells(&grid).is_empty());
}

#[test]
fn determinism_identical_runs() {
    let glider = vec![(2, 1), (3, 2), (1, 3), (2, 3), (3, 3)];
    let mut a = Dense::new(life_layered_kernel(), 5, 5);
    let mut b = Dense::new(life_layered_kernel(), 5, 5);
    seed(&mut a, &glider);
    seed(&mut b, &glider);
    for _ in 0..9 {
        a.step();
        b.step();
        assert_eq!(live_cells(&a), live_cells(&b));
    }
}

#[test]
fn memoizer_is_transparent() {
    // Wrapping the kernel with the memoizer must not change a single pixel
    // of the output stream.
    let glider = vec![(2, 1), (3, 2), (1, 3), (2, 3), (3, 3)];
    let mut bare = Dense::new(life_layered_kernel(), 5, 5);
    let mut memo = Dense::new(KernelCache::new(life_layered_kernel()), 5, 5);
    seed(&mut bare, &glider);
    seed(&mut memo, &glider);
    for _ in 0..12 {
        bare.step();
        memo.step();
        assert_eq!(live_cells(&bare), live_cells(&memo));
    }
}

#[test]
fn cache_hits_grow_on_periodic_state() {
    // 20x20 blocks of side 2, seeded with blinkers repeating with period 10:
    // the memoizer sees the same few block assemblies over and over.
    let mut grid = Dense::new(KernelCache::new(life_layered_kernel()), 20, 20);
    let (w, h) = grid.pixel_dims();
    for y in 0..h {
        for x in 0..w {
            let alive = y % 10 == 2 && (1..=3).contains(&(x % 10));
            if alive {
                grid.set_pixel((x, y), true);
            }
        }
    }
    let mut prev_hits = grid.kernel().hits();
    let mut last_hits = prev_hits;
    for _ in 0..10 {
        grid.step();
        let hits = grid.kernel().hits();
        assert!(hits >= prev_hits);
        prev_hits = hits;
        last_hits = hits;
        assert!(grid.kernel().solutions_len() <= 8888);
    }
    // a periodic state must actually hit the cache
    assert!(last_hits > 0);
    // the identity table stays small: only a handful of distinct blocks exist
    assert!(grid.kernel().values_len() <= 8888);
}

#[test]
fn set_pixel_then_get_pixel_round_trip() {
    let mut grid = life_grid_6x6();
    for y in 0..6 {
        for x in 0..6 {
            assert!(!grid.get_pixel((x, y)));
        }
    }
    grid.set_pixel((5, 0), true);
    grid.set_pixel((0, 5), true);
    for y in 0..6 {
        for x in 0..6 {
            let expected = (x, y) == (5, 0) || (x, y) == (0, 5);
            assert_eq!(grid.get_pixel((x, y)), expected);
        }
    }
    grid.set_pixel((5, 0), false);
    assert!(!grid.get_pixel((5, 0)));
    assert!(grid.get_pixel((0, 5)));
}
