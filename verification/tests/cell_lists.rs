use fizz::base::{ArrayNdCreationError, Grid, Range};
use fizz::math::{Zero, IV};
use fizz::sph::{CellLists, ParticleList};

fn three_by_three() -> CellLists<2> {
    CellLists::new(Grid::new(IV::new([3, 3]))).ok().unwrap()
}

#[test]
fn new_lists_are_empty() {
    let lists = three_by_three();
    assert_eq!(lists.domain(), Range::new(IV::new([0, 0]), IV::new([3, 3])));
    assert_eq!(lists.particles_in(IV::new([0, 0])), Some(vec![]));
    assert_eq!(lists.particles_in(IV::new([2, 2])), Some(vec![]));
    assert_eq!(lists.particles_in(IV::new([3, 0])), None);
    assert_eq!(lists.particles_in(IV::new([0, -1])), None);
    assert_eq!(lists.get_neighbors(IV::new([1, 1])), Vec::<usize>::new());
}

#[test]
fn too_large_a_grid_is_refused() {
    let cells = IV::new([isize::MAX, isize::MAX]);
    let r = CellLists::new(Grid::new(cells));
    assert_eq!(
        r.err(),
        Some(ArrayNdCreationError::InvalidDomain(Range::new(IV::new([0, 0]), cells)))
    );
}

#[test]
fn rebuild_bins_particles_in_ascending_order() {
    let mut lists = three_by_three();
    let cell_of = vec![
        IV::new([1, 1]),
        IV::new([0, 0]),
        IV::new([1, 1]),
        IV::new([2, 0]),
        IV::new([1, 1]),
        IV::new([0, 0]),
    ];
    lists.rebuild(&cell_of);
    assert_eq!(lists.particles_in(IV::new([1, 1])), Some(vec![0, 2, 4]));
    assert_eq!(lists.particles_in(IV::new([0, 0])), Some(vec![1, 5]));
    assert_eq!(lists.particles_in(IV::new([2, 0])), Some(vec![3]));
    assert_eq!(lists.particles_in(IV::new([0, 1])), Some(vec![]));
}

#[test]
fn rebuild_forgets_the_earlier_binning() {
    let mut lists = three_by_three();
    lists.rebuild(&vec![IV::new([0, 0]), IV::new([0, 0]), IV::new([0, 0])]);
    lists.rebuild(&vec![IV::new([2, 2])]);
    assert_eq!(lists.particles_in(IV::new([0, 0])), Some(vec![]));
    assert_eq!(lists.particles_in(IV::new([2, 2])), Some(vec![0]));
}

#[test]
fn fill_cells_appends_to_what_is_there() {
    let mut lists = three_by_three();
    lists.fill_cells(&vec![IV::new([1, 2]), IV::new([1, 2])]);
    lists.fill_cells(&vec![IV::new([0, 0]), IV::new([1, 2])]);
    assert_eq!(lists.particles_in(IV::new([1, 2])), Some(vec![0, 1, 1]));
    assert_eq!(lists.particles_in(IV::new([0, 0])), Some(vec![0]));
}

#[test]
fn clear_empties_every_list() {
    let mut lists = three_by_three();
    lists.rebuild(&vec![IV::new([0, 0]), IV::new([1, 1]), IV::new([2, 2]), IV::new([2, 2])]);
    lists.clear();
    for i in 0..3 {
        for j in 0..3 {
            assert_eq!(lists.particles_in(IV::new([i, j])), Some(vec![]));
        }
    }
    assert_eq!(lists.get_neighbors(IV::new([1, 1])), Vec::<usize>::new());
}

#[test]
fn a_list_grows_past_its_inline_entries() {
    let mut lists = three_by_three();
    let cell_of = vec![IV::new([1, 0]); 40];
    lists.rebuild(&cell_of);
    let want: Vec<usize> = (0..40).collect();
    assert_eq!(lists.particles_in(IV::new([1, 0])), Some(want));
}

#[test]
fn neighbors_of_the_middle_cell_are_all_particles_cell_by_cell() {
    let mut lists = three_by_three();
    let cell_of = vec![
        IV::new([2, 2]),
        IV::new([0, 0]),
        IV::new([1, 1]),
        IV::new([0, 2]),
        IV::new([1, 1]),
        IV::new([2, 0]),
        IV::new([0, 0]),
    ];
    lists.rebuild(&cell_of);
    assert_eq!(lists.get_neighbors(IV::new([1, 1])), vec![1, 6, 3, 2, 4, 5, 0]);
}

#[test]
fn neighbors_reach_one_cell_in_each_direction_and_no_further() {
    let mut lists = CellLists::new(Grid::new(IV::new([5, 5]))).ok().unwrap();
    let mut cell_of = Vec::new();
    for i in 0..5 {
        for j in 0..5 {
            cell_of.push(IV::new([i, j]));
        }
    }
    lists.rebuild(&cell_of);
    assert_eq!(lists.get_neighbors(IV::new([2, 2])), vec![6, 7, 8, 11, 12, 13, 16, 17, 18]);
    assert_eq!(lists.get_neighbors(IV::new([3, 1])), vec![10, 11, 12, 15, 16, 17, 20, 21, 22]);
}

#[test]
fn neighbors_at_a_corner_leave_out_cells_outside_the_grid() {
    let mut lists = CellLists::new(Grid::new(IV::new([5, 5]))).ok().unwrap();
    let mut cell_of = Vec::new();
    for i in 0..5 {
        for j in 0..5 {
            cell_of.push(IV::new([i, j]));
        }
    }
    lists.rebuild(&cell_of);
    assert_eq!(lists.get_neighbors(IV::new([0, 0])), vec![0, 1, 5, 6]);
    assert_eq!(lists.get_neighbors(IV::new([4, 4])), vec![18, 19, 23, 24]);
    assert_eq!(lists.get_neighbors(IV::new([0, 4])), vec![3, 4, 8, 9]);
    assert_eq!(lists.get_neighbors(IV::new([6, 6])), Vec::<usize>::new());
    assert_eq!(lists.get_neighbors(IV::new([5, 5])), vec![24]);
}

#[test]
fn neighbors_in_three_dimensions() {
    let mut lists = CellLists::new(Grid::new(IV::new([3, 3, 3]))).ok().unwrap();
    let mut cell_of = Vec::new();
    for i in 0..3 {
        for j in 0..3 {
            for k in 0..3 {
                cell_of.push(IV::new([i, j, k]));
            }
        }
    }
    lists.rebuild(&cell_of);
    let all: Vec<usize> = (0..27).collect();
    assert_eq!(lists.get_neighbors(IV::new([1, 1, 1])), all);
    assert_eq!(lists.get_neighbors(IV::new([0, 0, 0])), vec![0, 1, 3, 4, 9, 10, 12, 13]);
}

#[test]
fn one_particle_is_its_own_only_candidate() {
    let mut lists = three_by_three();
    lists.rebuild(&vec![IV::new([1, 1])]);
    assert_eq!(lists.get_neighbors(IV::new([1, 1])), vec![0]);
}

#[test]
fn the_zero_of_lists_is_the_empty_list() {
    let list = <ParticleList as Zero>::zero();
    assert_eq!(list.to_vec(), Vec::<usize>::new());
}
