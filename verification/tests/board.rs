use ant_sort::board::Board;
use ant_sort::board::BoardError;
use ant_sort::board::BoardPosition;
use ant_sort::board::Connectivity;
use ant_sort::board::grid_position;

#[test]
fn position_construction_is_validated() {
    let p = BoardPosition::new(3, 10).unwrap();
    assert_eq!(p.idx(), 3);
    assert!(matches!(
        BoardPosition::new(10, 10),
        Err(BoardError::OutOfRange { index: 10, size: 10 })
    ));
}

#[test]
fn grid_position_wraps_instead_of_clamping() {
    // coordinates reduce modulo the grid dimensions
    let p = grid_position(10, 10, 13, 27);
    assert_eq!(p.idx(), 7 * 10 + 3);
    let q = grid_position(10, 10, 3, 7);
    assert_eq!(q.idx(), p.idx());
}

#[test]
fn grid_rejects_empty_dimensions() {
    assert!(matches!(Board::toroidal_grid(0, 5, Connectivity::Four), Err(BoardError::EmptyGrid)));
    assert!(matches!(Board::toroidal_grid(5, 0, Connectivity::Eight), Err(BoardError::EmptyGrid)));
}

#[test]
fn four_connected_grid_neighbors() {
    let b = Board::toroidal_grid(10, 10, Connectivity::Four).unwrap();
    assert_eq!(b.size(), 100);
    let origin = BoardPosition::new(0, 100).unwrap();
    let ns: Vec<usize> = b.neighbors(&origin).iter().map(|p| p.idx()).collect();
    // left, right, up, down — all wrapped
    assert_eq!(ns, vec![9, 1, 90, 10]);
}

#[test]
fn eight_connected_grid_neighbors() {
    let b = Board::toroidal_grid(10, 10, Connectivity::Eight).unwrap();
    let origin = BoardPosition::new(0, 100).unwrap();
    let ns: Vec<usize> = b.neighbors(&origin).iter().map(|p| p.idx()).collect();
    assert_eq!(ns, vec![9, 1, 90, 10, 99, 91, 19, 11]);
}

#[test]
fn neighbors_within_zero_radius_is_empty() {
    let b = Board::toroidal_grid(10, 10, Connectivity::Eight).unwrap();
    for idx in 0..100 {
        let p = BoardPosition::new(idx, 100).unwrap();
        assert_eq!(b.neighbors_within(&p, 0).len(), 0);
    }
}

#[test]
fn neighbors_within_radius_one_is_the_eight_window() {
    let b = Board::toroidal_grid(10, 10, Connectivity::Eight).unwrap();
    let p = BoardPosition::new(55, 100).unwrap();
    let mut ns: Vec<usize> = b.neighbors_within(&p, 1).iter().map(|q| q.idx()).collect();
    ns.sort();
    assert_eq!(ns, vec![44, 45, 46, 54, 56, 64, 65, 66]);
}

#[test]
fn neighbors_within_radius_two_deduplicates() {
    let b = Board::toroidal_grid(10, 10, Connectivity::Eight).unwrap();
    let p = BoardPosition::new(55, 100).unwrap();
    let ns = b.neighbors_within(&p, 2);
    // the five-by-five window around the cell, minus the cell itself
    assert_eq!(ns.len(), 24);
    for q in &ns {
        assert_ne!(q.idx(), 55);
        assert!(q.idx() < 100);
    }
}

#[test]
fn random_positions_stay_on_the_wraparound_grid() {
    // repeated random draws from any start always land in range
    let b = Board::toroidal_grid(10, 10, Connectivity::Four).unwrap();
    for start in [0usize, 9, 55, 99] {
        let mut p = BoardPosition::new(start, 100).unwrap();
        for _ in 0..200 {
            p = b.random_neighbor(&p);
            let x = p.idx() % 10;
            let y = p.idx() / 10;
            assert!(x < 10 && y < 10);
            assert!(p.idx() < 100);
        }
    }
    for _ in 0..100 {
        assert!(b.random_position().idx() < 100);
    }
}

#[test]
fn adjacency_lists_are_validated() {
    let adj = vec![vec![1], vec![0, 2]];
    assert!(matches!(
        Board::from_adjacency(adj),
        Err(BoardError::BadNeighbor { vertex: 1, neighbor: 2 })
    ));
    let good = vec![vec![1], vec![0]];
    let b = Board::from_adjacency(good).unwrap();
    assert_eq!(b.size(), 2);
}

#[test]
fn mesh_adjacency_of_a_tetrahedron() {
    // four triangles; every vertex neighbors the other three
    let indices: Vec<u32> = vec![0, 1, 2, 0, 2, 3, 0, 3, 1, 1, 3, 2];
    let b = Board::from_mesh_indices(4, &indices).unwrap();
    assert_eq!(b.size(), 4);
    for v in 0..4usize {
        let p = BoardPosition::new(v, 4).unwrap();
        let mut ns: Vec<usize> = b.neighbors(&p).iter().map(|q| q.idx()).collect();
        ns.sort();
        ns.dedup();
        let expected: Vec<usize> = (0..4).filter(|w| *w != v).collect();
        assert_eq!(ns, expected);
    }
}

#[test]
fn mesh_indices_out_of_range_are_rejected() {
    let indices: Vec<u32> = vec![0, 1, 4];
    assert!(Board::from_mesh_indices(4, &indices).is_err());
}

#[test]
fn neighbors_within_expands_hop_by_hop() {
    // a path graph: 0 - 1 - 2 - 3 - 4
    let adj = vec![vec![1], vec![0, 2], vec![1, 3], vec![2, 4], vec![3]];
    let b = Board::from_adjacency(adj).unwrap();
    let start = BoardPosition::new(0, 5).unwrap();
    for (radius, expected) in [
        (0usize, vec![]),
        (1, vec![1]),
        (2, vec![1, 2]),
        (3, vec![1, 2, 3]),
        (4, vec![1, 2, 3, 4]),
        (9, vec![1, 2, 3, 4]),
    ] {
        let mut ns: Vec<usize> = b.neighbors_within(&start, radius).iter().map(|p| p.idx()).collect();
        ns.sort();
        assert_eq!(ns, expected, "radius {}", radius);
    }
}
