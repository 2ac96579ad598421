//! The solver, the generator, and the laws that tie them together.

use std::sync::atomic::AtomicBool;

use rand::SeedableRng;
use rand_xoshiro::Xoroshiro128StarStar;

use skyscrapper::check::check;
use skyscrapper::domain::BoardSet;
use skyscrapper::format::log10;
use skyscrapper::generate::{generate_solution, solution_to_header};
use skyscrapper::sigint::occured;
use skyscrapper::solve::{solve, SearchStart, SearchStatus, SearchState, SolutionError};

fn board_text(board: &[u8], size: usize) -> Vec<u8> {
    let mut text = Vec::new();
    for y in 0..size {
        for x in 0..size {
            if x > 0 {
                text.push(b' ');
            }
            text.extend_from_slice(board[y * size + x].to_string().as_bytes());
        }
        text.push(b'\n');
    }
    text
}

fn assert_latin(board: &[u8], size: usize) {
    assert_eq!(board.len(), size * size);
    for y in 0..size {
        let mut row: Vec<u8> = (0..size).map(|x| board[y * size + x]).collect();
        row.sort();
        let expected: Vec<u8> = (1..=size as u8).collect();
        assert_eq!(row, expected, "row {y} is not a permutation");
    }
    for x in 0..size {
        let mut col: Vec<u8> = (0..size).map(|y| board[y * size + x]).collect();
        col.sort();
        let expected: Vec<u8> = (1..=size as u8).collect();
        assert_eq!(col, expected, "column {x} is not a permutation");
    }
}

#[test]
fn solves_a_known_header() {
    let header = [2u8, 2, 1, 2, 2, 3, 4, 1, 2, 2, 1, 2, 2, 3, 4, 1];
    let stop = AtomicBool::new(false);
    let board = solve(&header, 4, &stop).unwrap();
    assert_latin(&board, 4);
    assert_eq!(solution_to_header(&board, 4), header.to_vec());
    assert!(check(&header, 4, &board_text(&board, 4)).is_ok());
}

#[test]
fn reports_an_unsolvable_header() {
    let header = [4u8, 4, 4, 4, 1, 1, 1, 1, 4, 4, 4, 4, 1, 1, 1, 1];
    let stop = AtomicBool::new(false);
    let r = solve(&header, 4, &stop);
    assert!(matches!(r, Err(SolutionError::NoSolution)));
}

#[test]
fn solves_the_one_cell_board() {
    let header = [1u8, 1, 1, 1];
    let stop = AtomicBool::new(false);
    let board = solve(&header, 1, &stop).unwrap();
    assert_eq!(board, vec![1]);
    assert!(check(&header, 1, b"1\n").is_ok());
}

#[test]
fn accepts_both_two_cell_boards() {
    // exactly two completed boards exist for size 2
    let first = [1u8, 2, 2, 1];
    let second = [2u8, 1, 1, 2];
    let h1 = solution_to_header(&first, 2);
    let h2 = solution_to_header(&second, 2);
    assert!(check(&h1, 2, b"1 2\n2 1\n").is_ok());
    assert!(check(&h2, 2, b"2 1\n1 2\n").is_ok());
    let stop = AtomicBool::new(false);
    let solved = solve(&h1, 2, &stop).unwrap();
    assert_latin(&solved, 2);
    assert_eq!(solution_to_header(&solved, 2), h1);
}

#[test]
fn round_trips_generated_headers() {
    // solve(header_of(B)) finds a board with the same derived header, and
    // the checker accepts both boards against it
    for seed in [1u64, 7, 42, 1234] {
        for size in [3usize, 4, 5] {
            let mut rng = Xoroshiro128StarStar::seed_from_u64(seed);
            let stop = AtomicBool::new(false);
            let board = generate_solution(&mut rng, size as u8, &stop).unwrap();
            assert_latin(&board, size);
            let header = solution_to_header(&board, size as u8);
            assert!(check(&header, size, &board_text(&board, size)).is_ok());
            let solved = solve(&header, size, &stop).unwrap();
            assert_latin(&solved, size);
            assert_eq!(solution_to_header(&solved, size as u8), header);
            assert!(check(&header, size, &board_text(&solved, size)).is_ok());
        }
    }
}

/// A generated header whose search has to branch: header pruning and
/// propagation alone do not finish it.
fn branching_header(size: u8) -> (Vec<u8>, SearchState) {
    let stop = AtomicBool::new(false);
    for seed in 0u64..50 {
        let mut rng = Xoroshiro128StarStar::seed_from_u64(seed);
        let board = generate_solution(&mut rng, size, &stop).unwrap();
        let header = solution_to_header(&board, size);
        if let SearchStart::Running(st) = SearchState::new(&header, size as usize) {
            return (header, st);
        }
    }
    panic!("no branching header found");
}

#[test]
fn generation_is_deterministic_for_a_seed() {
    let stop = AtomicBool::new(false);
    let mut rng = Xoroshiro128StarStar::seed_from_u64(99);
    let a = generate_solution(&mut rng, 5, &stop).unwrap();
    let mut rng = Xoroshiro128StarStar::seed_from_u64(99);
    let b = generate_solution(&mut rng, 5, &stop).unwrap();
    assert_eq!(a, b);
    let header = solution_to_header(&a, 5);
    assert!(check(&header, 5, &board_text(&a, 5)).is_ok());
}

#[test]
fn interruption_stops_the_work() {
    let stop = AtomicBool::new(true);
    assert!(occured(&stop));
    // the solver polls the flag before every search step
    let (header, _) = branching_header(6);
    let r = solve(&header, 6, &stop);
    assert!(matches!(r, Err(SolutionError::Interrupted)));
    // the generator polls it before every cell
    let mut rng = Xoroshiro128StarStar::seed_from_u64(3);
    assert!(generate_solution(&mut rng, 4, &stop).is_none());
}

#[test]
fn stepping_shows_distinct_partial_boards() {
    // animation relies on at least two distinct partial boards being
    // emitted before the final solution
    let (_, mut st) = branching_header(6);
    let mut partials: Vec<Vec<u8>> = vec![st.current_board()];
    loop {
        match st.step() {
            SearchStatus::Pending => {
                let b = st.current_board();
                if !partials.contains(&b) {
                    partials.push(b);
                }
            }
            SearchStatus::Solved(board) => {
                assert_latin(&board, 6);
                break;
            }
            SearchStatus::NoSolution => panic!("the header is solvable"),
        }
    }
    assert!(partials.len() >= 2, "saw {} distinct partials", partials.len());
}

#[test]
fn header_pruning_leaves_no_cell_empty() {
    // after an accepted header is applied, every domain keeps a height
    let header = [2u8, 2, 1, 2, 2, 3, 4, 1, 2, 2, 1, 2, 2, 3, 4, 1];
    let mut set = BoardSet::new(4);
    let mut buf = Vec::new();
    set.account_for_header(&header, &mut buf).unwrap();
    for y in 0..4 {
        for x in 0..4 {
            assert!(set.cell(x, y).count() >= 1);
        }
    }
}

#[test]
fn extreme_clues_pin_their_lines() {
    // clue 1 forces the adjacent cell to the tallest height; clue n forces
    // the whole line to ascend from its edge
    let header = [3u8, 2, 1, 1, 2, 2, 3, 2, 1, 1, 2, 2];
    let mut set = BoardSet::new(3);
    let mut buf = Vec::new();
    set.account_for_header(&header, &mut buf).unwrap();
    // top clue of column 0 is 3: the column ascends 1, 2, 3
    assert_eq!(set.cell(0, 0).slice(), [1u8].as_slice());
    assert_eq!(set.cell(0, 1).slice(), [2u8].as_slice());
    assert_eq!(set.cell(0, 2).slice(), [3u8].as_slice());
    // top clue of column 2 is 1: the adjacent cell is the tallest height
    assert_eq!(set.cell(2, 0).slice(), [3u8].as_slice());
}

#[test]
fn propagation_is_idempotent() {
    // running the propagator to fixpoint twice yields the same store
    let header = [2u8, 2, 1, 2, 2, 3, 4, 1, 2, 2, 1, 2, 2, 3, 4, 1];
    let mut set = BoardSet::new(4);
    let mut buf = Vec::new();
    set.account_for_header(&header, &mut buf).unwrap();
    set.remove_duplicates_in(&mut buf).unwrap();
    let once = set.create_board();
    let counts: Vec<usize> = (0..16).map(|i| set.cell(i % 4, i / 4).count()).collect();
    assert!(buf.is_empty());
    set.remove_duplicates_in(&mut buf).unwrap();
    let twice = set.create_board();
    let counts2: Vec<usize> = (0..16).map(|i| set.cell(i % 4, i / 4).count()).collect();
    assert_eq!(once, twice);
    assert_eq!(counts, counts2);
}

#[test]
fn digit_widths() {
    assert_eq!(log10(0), 0);
    assert_eq!(log10(1), 1);
    assert_eq!(log10(9), 1);
    assert_eq!(log10(10), 2);
    assert_eq!(log10(99), 2);
    assert_eq!(log10(100), 3);
    assert_eq!(log10(255), 3);
}
