use fizz::base::{ArrayNd, FaceArray, FaceIndex, Grid, Range};
use fizz::math::IV;

#[test]
fn face_index_new_keeps_cell_and_axis() {
    let fi = FaceIndex::new(IV::new([3, -1]), 1);
    assert_eq!(fi.cell, IV::new([3, -1]));
    assert_eq!(fi.axis, 1);
}

#[test]
fn nodes_are_one_more_than_cells() {
    let grid = Grid::new(IV::new([10, 4]));
    assert_eq!(grid.num_cells(), IV::new([10, 4]));
    assert_eq!(grid.num_nodes(), IV::new([11, 5]));
}

#[test]
fn cells_are_enumerated_from_zero() {
    let grid = Grid::new(IV::new([2, 2]));
    let got = grid.cells().collect();
    assert_eq!(
        got,
        vec![IV::new([0, 0]), IV::new([0, 1]), IV::new([1, 0]), IV::new([1, 1])]
    );
}

#[test]
fn nodes_include_the_far_corner() {
    let grid = Grid::new(IV::new([1, 2]));
    let got = grid.nodes().collect();
    assert_eq!(
        got,
        vec![
            IV::new([0, 0]),
            IV::new([0, 1]),
            IV::new([0, 2]),
            IV::new([1, 0]),
            IV::new([1, 1]),
            IV::new([1, 2]),
        ]
    );
    assert_eq!(Grid::new(IV::new([10, 10])).nodes().collect().len(), 121);
}

#[test]
fn faces_come_axis_by_axis_with_the_closing_face() {
    let grid = Grid::new(IV::new([1, 2]));
    let got = grid.faces().collect();
    let want = vec![
        FaceIndex::new(IV::new([0, 0]), 0),
        FaceIndex::new(IV::new([0, 1]), 0),
        FaceIndex::new(IV::new([1, 0]), 0),
        FaceIndex::new(IV::new([1, 1]), 0),
        FaceIndex::new(IV::new([0, 0]), 1),
        FaceIndex::new(IV::new([0, 1]), 1),
        FaceIndex::new(IV::new([0, 2]), 1),
    ];
    assert_eq!(got, want);
}

#[test]
fn face_iterator_ends_and_stays_ended() {
    let grid = Grid::new(IV::new([1]));
    let mut it = grid.faces();
    assert_eq!(it.next(), Some(FaceIndex::new(IV::new([0]), 0)));
    assert_eq!(it.next(), Some(FaceIndex::new(IV::new([1]), 0)));
    assert_eq!(it.next(), None);
    assert_eq!(it.next(), None);
}

#[test]
fn face_count_in_three_dimensions() {
    let grid = Grid::new(IV::new([2, 3, 4]));
    let got = grid.faces().collect();
    assert_eq!(got.len(), 3 * 3 * 4 + 2 * 4 * 4 + 2 * 3 * 5);
    assert_eq!(got.iter().filter(|f| f.axis == 0).count(), 36);
    assert_eq!(got.iter().filter(|f| f.axis == 1).count(), 32);
    assert_eq!(got.iter().filter(|f| f.axis == 2).count(), 30);
}

#[test]
fn faces_skip_an_axis_without_faces() {
    let grid = Grid::new(IV::new([0, 0]));
    assert!(grid.faces().collect().is_empty());
    let grid = Grid::new(IV::new([0, 2]));
    let got = grid.faces().collect();
    assert_eq!(got, vec![FaceIndex::new(IV::new([0, 0]), 0), FaceIndex::new(IV::new([0, 1]), 0)]);
}

#[test]
fn face_array_holds_one_array_per_axis() {
    let grid = Grid::new(IV::new([2, 2]));
    let x: ArrayNd<i32, 2> =
        ArrayNd::zeros(Range::new(IV::zeros(), grid.num_cells().add(&IV::ith(0, 1)))).ok().unwrap();
    let y: ArrayNd<i32, 2> =
        ArrayNd::zeros(Range::new(IV::zeros(), grid.num_cells().add(&IV::ith(1, 1)))).ok().unwrap();
    let mut faces = FaceArray([x, y]);
    let mut k = 1;
    for f in grid.faces().collect() {
        *faces.index_mut(f) = k;
        k += 1;
    }
    let mut k = 1;
    for f in grid.faces().collect() {
        assert_eq!(*faces.index(f), k);
        k += 1;
    }
    assert_eq!(k, 13);
    assert_eq!(*faces.index(FaceIndex::new(IV::new([2, 1]), 0)), 6);
    assert_eq!(*faces.index(FaceIndex::new(IV::new([1, 2]), 1)), 12);
}
