use string_art::grid::Grid;
use string_art::scorer::{loss_of, score, Score};

fn grid(side: usize, cells: &[u64]) -> Grid {
    Grid::from_cells(side, cells.to_vec()).unwrap()
}

#[test]
fn loss_is_the_sum_of_squared_errors() {
    let target = grid(2, &[10_000, 0, 0, 0]);
    let working = grid(2, &[0, 0, 0, 0]);
    let added = grid(2, &[500, 0, 0, 500]);
    // 9500 * 9500 + 500 * 500
    assert_eq!(
        score(&target, &working, &added, u128::MAX),
        Score { loss: 90_500_000, accepted: true }
    );
}

#[test]
fn loss_counts_what_is_too_dark() {
    let target = grid(1, &[0]);
    let working = grid(1, &[700]);
    let added = grid(1, &[500]);
    assert_eq!(
        score(&target, &working, &added, u128::MAX),
        Score { loss: 1_440_000, accepted: true }
    );
    let target = grid(1, &[1_000]);
    assert_eq!(
        score(&target, &working, &added, u128::MAX),
        Score { loss: 40_000, accepted: true }
    );
}

#[test]
fn candidate_at_the_limit_is_accepted() {
    let target = grid(2, &[10_000, 0, 0, 0]);
    let working = grid(2, &[0, 0, 0, 0]);
    let added = grid(2, &[500, 0, 0, 500]);
    assert_eq!(
        score(&target, &working, &added, 90_500_000),
        Score { loss: 90_500_000, accepted: true }
    );
}

#[test]
fn candidate_above_the_limit_is_rejected_where_the_sum_passes_it() {
    let target = grid(2, &[10_000, 0, 0, 0]);
    let working = grid(2, &[0, 0, 0, 0]);
    let added = grid(2, &[500, 0, 0, 500]);
    // the sum passes the limit with the last pixel
    assert_eq!(
        score(&target, &working, &added, 90_499_999),
        Score { loss: 90_500_000, accepted: false }
    );
    // the sum passes the limit with the first pixel
    assert_eq!(
        score(&target, &working, &added, 90_000_000),
        Score { loss: 90_250_000, accepted: false }
    );
    assert_eq!(score(&target, &working, &added, 0), Score { loss: 90_250_000, accepted: false });
}

#[test]
fn perfect_candidate_has_no_loss() {
    let target = grid(2, &[500, 1_000, 0, 10_000]);
    let working = grid(2, &[0, 500, 0, 9_500]);
    let added = grid(2, &[500, 500, 0, 500]);
    assert_eq!(score(&target, &working, &added, 0), Score { loss: 0, accepted: true });
}

#[test]
fn empty_grids_have_no_loss() {
    let none = grid(0, &[]);
    assert_eq!(score(&none, &none, &none, 0), Score { loss: 0, accepted: true });
    assert_eq!(loss_of(&none, &none), 0);
}

#[test]
fn loss_of_a_grid_as_it_stands() {
    let target = grid(2, &[10_000, 0, 5_000, 0]);
    let working = grid(2, &[0, 0, 0, 0]);
    assert_eq!(loss_of(&target, &working), 125_000_000);
    let working = grid(2, &[10_000, 100, 4_000, 0]);
    assert_eq!(loss_of(&target, &working), 1_010_000);
    assert_eq!(loss_of(&target, &target), 0);
}

#[test]
fn loss_of_the_darkest_grids_fits() {
    let side = 64;
    let target = Grid::from_cells(side, vec![0; side * side]).unwrap();
    let working = Grid::from_cells(side, vec![1 << 41; side * side]).unwrap();
    let added = Grid::from_cells(side, vec![1 << 41; side * side]).unwrap();
    let expected: u128 = (1u128 << 84) * 4096;
    assert_eq!(
        score(&target, &working, &added, u128::MAX),
        Score { loss: expected, accepted: true }
    );
}
