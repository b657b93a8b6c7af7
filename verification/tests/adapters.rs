use wfc::rels::{get_2d_rels, Dir2D, Neighbor2D};
use wfc::tiles::{Desc, TileDesc};
use wfc::util::generate_2d_positions;
use wfc::{Grid, Instance, Rot};

#[test]
fn step_and_iter() {
    assert_eq!(Dir2D::Left.step(0, 5), None);
    assert_eq!(Dir2D::Left.step(3, 5), Some((2, 5)));
    assert_eq!(Dir2D::Down.step(3, 0), None);
    assert_eq!(Dir2D::Down.step(3, 5), Some((3, 4)));
    assert_eq!(Dir2D::Right.step(3, 5), Some((4, 5)));
    assert_eq!(Dir2D::Up.step(3, 5), Some((3, 6)));
    assert_eq!(Dir2D::Up.opp(), Dir2D::Down);
    assert_eq!(Dir2D::Left.opp(), Dir2D::Right);
    let entries = Dir2D::iter(0, 0);
    assert_eq!(entries, vec![(Dir2D::Up, (0, 1)), (Dir2D::Right, (1, 0))]);
    let entries = Dir2D::iter(1, 1);
    assert_eq!(
        entries,
        vec![
            (Dir2D::Up, (1, 2)),
            (Dir2D::Down, (1, 0)),
            (Dir2D::Left, (0, 1)),
            (Dir2D::Right, (2, 1)),
        ]
    );
}

#[test]
fn sample_grid_rels() {
    let sample: Vec<Vec<u8>> = vec![vec![1, 2], vec![3, 4]];
    let rels = get_2d_rels(&sample);
    assert_eq!(rels.len(), 4);
    // Cell (0, 0) holds item 1; row 1 lies "up" of row 0.
    assert_eq!(rels[0].0, 1);
    assert_eq!(
        rels[0].1,
        vec![Neighbor2D::new(3, Dir2D::Up), Neighbor2D::new(2, Dir2D::Right)]
    );
    // Cell (1, 1) holds item 4.
    assert_eq!(rels[3].0, 4);
    assert_eq!(
        rels[3].1,
        vec![Neighbor2D::new(2, Dir2D::Down), Neighbor2D::new(3, Dir2D::Left)]
    );
}

#[test]
fn positions() {
    let locs = generate_2d_positions(3, 2);
    assert_eq!(locs, vec![(0, 0), (1, 0), (2, 0), (0, 1), (1, 1), (2, 1)]);
    assert_eq!(generate_2d_positions(0, 7), vec![]);
}

#[test]
fn grid_assembly() {
    let items: Vec<((usize, usize), u32)> = vec![
        ((1, 0), 10),
        ((0, 0), 20),
        ((0, 1), 30),
        ((1, 1), 40),
    ];
    let g = Grid::new(2, items);
    assert_eq!(g.side_len(), 2);
    assert_eq!(*g.at(0, 0), 20);
    assert_eq!(*g.at(1, 0), 10);
    assert_eq!(*g.at(0, 1), 30);
    assert_eq!(*g.at(1, 1), 40);
}

#[test]
fn tile_desc_items() {
    let tiles: Vec<(u64, TileDesc<usize>)> = vec![
        (7, TileDesc::new(180, vec![(0, vec![Rot::new(0)])])),
        (9, TileDesc::new(360, vec![(1, vec![Rot::new(0)])])),
    ];
    let desc = Desc { tiles };
    let items = desc.items();
    assert_eq!(
        items,
        vec![
            (7, Rot::new(0)),
            (7, Rot::new(90)),
            (9, Rot::new(0)),
            (9, Rot::new(90)),
            (9, Rot::new(180)),
            (9, Rot::new(270)),
        ]
    );
}

#[test]
fn tile_desc_rels() {
    // One fully symmetric tile with a single side type pairs with itself
    // in all four directions.
    let tiles: Vec<(u64, TileDesc<usize>)> = vec![
        (7, TileDesc::new(90, vec![(0, vec![Rot::new(0)])])),
    ];
    let desc = Desc { tiles };
    let table = desc.rels();
    assert_eq!(table.len(), 1);
    let (key, list) = &table[0];
    assert_eq!(*key, (0, Rot::new(0)));
    assert_eq!(list.len(), 4);
    for dir in [Dir2D::Right, Dir2D::Left, Dir2D::Up, Dir2D::Down] {
        assert!(list.contains(&((0, Rot::new(0)), dir)));
    }
}

#[test]
fn knot_world() {
    let inst = Instance::knot_instance();
    assert_eq!(inst.tile_size, 10);
    assert_eq!(inst.image_dir.as_str(), "./bin/samples/knots");
    assert_eq!(inst.n_tiles(), 5);
    assert_eq!(inst.tile_name(0), "cross.png");
    assert_eq!(inst.tile_name(1), "corner.png");
    assert_eq!(inst.tile_name(2), "empty.png");
    assert_eq!(inst.tile_name(3), "t.png");
    assert_eq!(inst.tile_name(4), "line.png");
    // cardinalities 180, 360, 90, 360, 180 give 2 + 4 + 1 + 4 + 2 items.
    let items = inst.items();
    assert_eq!(items.len(), 13);
    assert_eq!(items[0], (0, Rot::new(0)));
    assert_eq!(items[1], (0, Rot::new(90)));
    assert_eq!(items[2], (1, Rot::new(0)));
    let table = inst.rels();
    assert!(table.len() > 0);
    // Keys are unique.
    for q1 in 0..table.len() {
        for q2 in 0..table.len() {
            if q1 != q2 {
                assert_ne!(table[q1].0, table[q2].0);
            }
        }
    }
    // The table is symmetric: every permitted pairing has its mirror.
    for (a_key, list) in table.iter() {
        for (b_key, dir) in list.iter() {
            let back = table
                .iter()
                .find(|(k, _)| k == b_key)
                .expect("neighbor key must be in the table");
            assert!(back.1.contains(&(*a_key, dir.opp())));
        }
    }
}
