use wfc::freq::{BuildError, FrequencyTable};
use wfc::rels::{Dir2D, Neighbor2D};
use wfc::util::generate_2d_positions;
use wfc::wfc::StepError;
use wfc::WaveFunctionCollapse;

type Engine = WaveFunctionCollapse<Neighbor2D<usize>>;

/// A 2x2 grid over two unconstrained items with equal weights.
fn open_engine() -> Engine {
    let locs = generate_2d_positions(2, 2);
    let rels: Vec<Vec<Neighbor2D<usize>>> = vec![vec![], vec![]];
    WaveFunctionCollapse::new(locs, vec![0, 1], rels).unwrap()
}

/// A 2x2 grid over two items where every item only tolerates itself in
/// every direction, so the first collapse determines the whole grid.
fn uniform_engine() -> Engine {
    let locs = generate_2d_positions(2, 2);
    let all_dirs = [Dir2D::Up, Dir2D::Down, Dir2D::Left, Dir2D::Right];
    let rels: Vec<Vec<Neighbor2D<usize>>> = vec![
        all_dirs.iter().map(|&d| Neighbor2D::new(0, d)).collect(),
        all_dirs.iter().map(|&d| Neighbor2D::new(1, d)).collect(),
    ];
    WaveFunctionCollapse::new(locs, vec![0, 1], rels).unwrap()
}

#[test]
fn construction_errors() {
    let locs = generate_2d_positions(2, 1);
    let none: Vec<Vec<Neighbor2D<usize>>> = vec![];
    assert_eq!(
        WaveFunctionCollapse::new(locs.clone(), vec![], none).err(),
        Some(BuildError::EmptyUniverse)
    );
    let two: Vec<Vec<Neighbor2D<usize>>> = vec![vec![], vec![]];
    assert_eq!(
        WaveFunctionCollapse::new(locs.clone(), vec![0, 5], two).err(),
        Some(BuildError::UnknownItem)
    );
    let two: Vec<Vec<Neighbor2D<usize>>> = vec![vec![], vec![]];
    assert_eq!(
        WaveFunctionCollapse::new(locs.clone(), vec![0, 0], two).err(),
        Some(BuildError::ZeroWeightItem)
    );
    let one: Vec<Vec<Neighbor2D<usize>>> = vec![vec![]];
    assert_eq!(
        WaveFunctionCollapse::new(vec![(0, 0), (1, 0), (0, 0)], vec![0], one).err(),
        Some(BuildError::DuplicateLocation)
    );
}

#[test]
fn weight_conservation() {
    let ft = FrequencyTable::from_occurrences(3, &vec![0, 1, 1, 2]).unwrap();
    assert_eq!(ft.universe_size(), 3);
    assert_eq!(ft.count_of(0), 1);
    assert_eq!(ft.count_of(1), 2);
    assert_eq!(ft.count_of(2), 1);
    let sum: u64 = ft.count_of(0) + ft.count_of(1) + ft.count_of(2);
    assert_eq!(sum, ft.total());
}

#[test]
fn entropy_values() {
    // A determined location has entropy zero.
    let single: Vec<Vec<Neighbor2D<usize>>> = vec![vec![]];
    let w = WaveFunctionCollapse::new(vec![(0, 0)], vec![0], single).unwrap();
    let (a, t) = w.shannon_entropy_at((0, 0));
    assert_eq!(a, 0);
    assert_eq!(t, 1);
    // Two equally weighted items: one full bit of entropy, scaled by 2^32
    // and by the total weight.
    let w = open_engine();
    let (a, t) = w.shannon_entropy_at((0, 0));
    assert_eq!(t, 2);
    assert_eq!(a, 0x2_0000_0000);
    // Skewed weights lower the entropy below the uniform value for the
    // same total.
    let skew: Vec<Vec<Neighbor2D<usize>>> = vec![vec![], vec![]];
    let w = WaveFunctionCollapse::new(vec![(0, 0)], vec![0, 0, 1], skew).unwrap();
    let (a, t) = w.shannon_entropy_at((0, 0));
    assert_eq!(t, 3);
    // t * plog2(t) - 2 * plog2(2) - 1 * plog2(1)
    assert_eq!(a, 3 * 0x1_8000_0000 - 2 * 0x1_0000_0000);
}

#[test]
fn completion() {
    // A single-item universe is complete at construction.
    let single: Vec<Vec<Neighbor2D<usize>>> = vec![vec![]];
    let locs = generate_2d_positions(2, 2);
    let mut w = WaveFunctionCollapse::new(locs, vec![0], single).unwrap();
    assert!(w.is_fully_collapsed());
    let cells = w.get_collapsed().unwrap();
    assert_eq!(cells.len(), 4);
    for (_, item) in cells {
        assert_eq!(item, 0);
    }
    // Observing a complete grid reports that nothing is left to collapse.
    assert_eq!(w.observe(), Err(StepError::NothingToCollapse));
    // An unconstrained two-item grid completes after one observation per
    // location.
    let mut w = open_engine();
    let mut steps = 0;
    while !w.is_fully_collapsed() {
        assert_eq!(w.observe(), Ok(()));
        steps += 1;
        assert!(steps <= 4);
    }
    assert_eq!(steps, 4);
    let cells = w.get_collapsed().unwrap();
    assert_eq!(cells.len(), 4);
    for (_, item) in cells {
        assert!(item == 0 || item == 1);
    }
}

#[test]
fn propagation_cascade() {
    // When every item tolerates only itself, one collapse determines the
    // whole grid through propagation.
    let mut w = uniform_engine();
    assert_eq!(w.observe_with(0), Ok(()));
    assert!(w.is_fully_collapsed());
    let cells = w.get_collapsed().unwrap();
    let first = cells[0].1;
    for (_, item) in cells {
        assert_eq!(item, first);
    }
}

#[test]
fn monotone_domain_shrink() {
    let mut w = uniform_engine();
    let n = w.n_locations();
    let before: Vec<usize> = (0..n).map(|j| w.size_at_index(j)).collect();
    assert_eq!(w.observe_with(1), Ok(()));
    let after: Vec<usize> = (0..n).map(|j| w.size_at_index(j)).collect();
    for j in 0..n {
        assert!(after[j] <= before[j]);
        assert!(after[j] >= 1);
    }
}

#[test]
fn determinism_under_fixed_draws() {
    let draws = [3, 1, 4, 1, 5];
    let run = || {
        let mut w = open_engine();
        let mut outs = Vec::new();
        for &d in draws.iter() {
            if w.is_fully_collapsed() {
                break;
            }
            assert_eq!(w.observe_with(d), Ok(()));
            outs.push(w.get_partial());
        }
        (outs, w.get_collapsed())
    };
    let (outs1, final1) = run();
    let (outs2, final2) = run();
    assert_eq!(outs1, outs2);
    assert_eq!(final1, final2);
}

#[test]
fn contradiction_detection() {
    // Two locations side by side; whatever the left one collapses to, its
    // only rule permits an item outside the universe on the right, so the
    // right location is emptied and reported.
    let rels: Vec<Vec<Neighbor2D<usize>>> = vec![
        vec![Neighbor2D::new(5, Dir2D::Right)],
        vec![Neighbor2D::new(5, Dir2D::Right)],
    ];
    let mut w = WaveFunctionCollapse::new(vec![(0, 0), (1, 0)], vec![0, 1], rels).unwrap();
    match w.observe_with(0) {
        Err(StepError::Contradiction(cs)) => {
            assert_eq!(cs, vec![(1, 0)]);
        },
        r => panic!("expected a contradiction, got {:?}", r),
    }
    assert!(w.get_collapsed().is_err());
}

#[test]
fn partial_read_back() {
    let mut w = open_engine();
    assert_eq!(w.observe_with(0), Ok(()));
    let partial = w.get_partial();
    let n = w.n_locations();
    assert_eq!(partial.len(), n);
    let mut determined = 0;
    for j in 0..n {
        let (loc, item) = partial[j].clone();
        assert_eq!(loc, w.location_at(j));
        // The read-back agrees with a direct inspection of the store.
        if w.size_at_index(j) == 1 {
            determined += 1;
            let it = item.expect("determined location must read back Some");
            assert!(w.possible_at(j, it));
        } else {
            assert_eq!(item, None);
        }
    }
    assert_eq!(determined, 1);
    let (done, total) = w.num_complete();
    assert_eq!((done, total), (1, n));
}

#[test]
fn collapse_and_propagate_directly() {
    let mut w = uniform_engine();
    w.collapse_at_with((1, 1), 0);
    assert_eq!(w.size_at_index(3), 1);
    assert!(w.possible_at(3, 0));
    assert_eq!(w.propogate((1, 1)), Ok(()));
    assert!(w.is_fully_collapsed());
    // The random variant also picks only still-possible items.
    let mut w = open_engine();
    w.collapse_at((0, 1));
    let partial = w.get_partial();
    let picked = partial
        .iter()
        .find(|(l, _)| *l == (0, 1))
        .unwrap()
        .1
        .expect("collapsed location must be determined");
    assert!(picked == 0 || picked == 1);
}

#[test]
fn explicit_weight_table() {
    let rels: Vec<Vec<Neighbor2D<usize>>> = vec![vec![], vec![]];
    let mut w = WaveFunctionCollapse::new_with_counts(vec![(0, 0)], vec![1, 3], rels).unwrap();
    // Items cover spans [0, 1) and [1, 4); a draw of 1 lands on item 1.
    assert_eq!(w.observe_with(1), Ok(()));
    assert_eq!(w.get_collapsed().unwrap(), vec![((0, 0), 1)]);
    let e: Vec<Vec<Neighbor2D<usize>>> = vec![vec![], vec![]];
    assert_eq!(
        WaveFunctionCollapse::new_with_counts(vec![(0, 0)], vec![1, 0], e).err(),
        Some(BuildError::ZeroWeightItem)
    );
    let e: Vec<Vec<Neighbor2D<usize>>> = vec![vec![], vec![]];
    assert_eq!(
        WaveFunctionCollapse::new_with_counts(vec![(0, 0)], vec![1], e).err(),
        Some(BuildError::UnknownItem)
    );
    let e: Vec<Vec<Neighbor2D<usize>>> = vec![vec![], vec![]];
    assert_eq!(
        WaveFunctionCollapse::new_with_counts(vec![(0, 0)], vec![0x10_0000, 1], e).err(),
        Some(BuildError::WeightOverflow)
    );
}

#[test]
fn propagation_soundness() {
    // Each item tolerates only itself to the right.  After the left cell
    // collapses to item 0, the right cell may no longer hold item 1: no
    // unsupported possibility survives the pass.
    let rels: Vec<Vec<Neighbor2D<usize>>> = vec![
        vec![Neighbor2D::new(0, Dir2D::Right)],
        vec![Neighbor2D::new(1, Dir2D::Right)],
    ];
    let mut w = WaveFunctionCollapse::new(vec![(0, 0), (1, 0)], vec![0, 1], rels).unwrap();
    assert_eq!(w.observe_with(0), Ok(()));
    assert_eq!(w.size_at_index(0), 1);
    assert!(w.possible_at(0, 0));
    assert_eq!(w.size_at_index(1), 1);
    assert!(w.possible_at(1, 0));
    assert!(!w.possible_at(1, 1));
    assert!(w.is_fully_collapsed());
}
