use rand::rngs::StdRng;
use rand::{Rng, SeedableRng};
use sudoku_anneal::solver::{AnnealingSearch, SASolver, Step, SudokuState, STUCK_LIMIT};
use sudoku_anneal::sudoku::Sudoku;

const HARD: [&str; 9] = [
    "008002000",
    "006000095",
    "030050000",
    "200080700",
    "740000003",
    "000000400",
    "000800630",
    "000300010",
    "000724000",
];

fn board(rows: &[&str; 9]) -> Sudoku {
    let mut s = Sudoku::new();
    for (r, line) in rows.iter().enumerate() {
        for (c, ch) in line.chars().enumerate() {
            s.set(r, c, ch.to_digit(10).unwrap());
        }
    }
    s
}

fn std_deviation(data: &[i32]) -> Option<f64> {
    if data.is_empty() {
        return None;
    }
    let n = data.len() as f64;
    let mean = data.iter().map(|&v| v as f64).sum::<f64>() / n;
    let variance = data
        .iter()
        .map(|&v| {
            let d = v as f64 - mean;
            d * d
        })
        .sum::<f64>()
        / n;
    Some(variance.sqrt())
}

fn accept_probability(diff: i32, temp: f64) -> f64 {
    if diff <= 0 {
        1.0
    } else {
        (-(diff as f64) / temp).exp()
    }
}

fn run(puzzle: &Sudoku, seed: u64, budget: u64) -> Option<Sudoku> {
    let mut rng = StdRng::seed_from_u64(seed);
    let costs = SASolver::completion_costs(puzzle, &mut rng);
    let mut temp = std_deviation(&costs).expect("initial temperature");
    let mut search = AnnealingSearch::new(puzzle, &mut rng);
    if search.is_solved() {
        return Some(search.board());
    }
    for _ in 0..budget {
        let accepted = match search.propose(&mut rng) {
            Some(diff) if diff > 0 => {
                let draw: f64 = 1.0 - rng.gen::<f64>();
                draw < accept_probability(diff, temp)
            }
            _ => true,
        };
        match search.advance(accepted) {
            Step::Solved => return Some(search.board()),
            Step::Continue => {}
            Step::BatchEnd { reheat } => {
                temp *= 0.99;
                if reheat {
                    temp += 2.0;
                }
            }
        }
    }
    None
}

#[test]
fn number_of_iterations_counts_givens() {
    let p = board(&HARD);
    assert_eq!(SASolver::calculate_number_of_iterations(&p.get_fixed_values()), 22);
    assert_eq!(SASolver::calculate_number_of_iterations(&Sudoku::new()), 0);
}

#[test]
fn improving_candidate_is_always_taken() {
    let current = Sudoku::new();
    let mut next = Sudoku::new();
    next.set(0, 0, 5);
    let c = SudokuState { sudoku: next, difference: -2 };
    let r = SASolver::choose_new_state(&current, c, false);
    assert_eq!(r.sudoku, next);
    assert_eq!(r.difference, -2);
    let c = SudokuState { sudoku: next, difference: 0 };
    assert_eq!(SASolver::choose_new_state(&current, c, false).sudoku, next);
}

#[test]
fn worsening_candidate_needs_the_draw() {
    let current = Sudoku::new();
    let mut next = Sudoku::new();
    next.set(0, 0, 5);
    let c = SudokuState { sudoku: next, difference: 3 };
    let r = SASolver::choose_new_state(&current, c, false);
    assert_eq!(r.sudoku, current);
    assert_eq!(r.difference, 0);
    let c = SudokuState { sudoku: next, difference: 3 };
    let r = SASolver::choose_new_state(&current, c, true);
    assert_eq!(r.sudoku, next);
    assert_eq!(r.difference, 3);
}

#[test]
fn stagnation_counter() {
    let s = SASolver::new();
    assert_eq!(s.next_stuck_count(4, 10, 10), (5, false));
    assert_eq!(s.next_stuck_count(4, 11, 10), (5, false));
    assert_eq!(s.next_stuck_count(4, 9, 10), (0, false));
    assert_eq!(s.next_stuck_count(STUCK_LIMIT, 9, 9), (STUCK_LIMIT + 1, true));
    assert_eq!(s.next_stuck_count(STUCK_LIMIT - 1, 9, 9), (STUCK_LIMIT, false));
    assert_eq!(s.next_stuck_count(u32::MAX, 9, 9), (u32::MAX, true));
}

#[test]
fn proposed_difference_is_the_change_of_global_cost() {
    let p = board(&HARD);
    let fixed = p.get_fixed_values();
    let mut rng = StdRng::seed_from_u64(11);
    let mut current = p;
    current.randomly_fill(&mut rng);
    for _ in 0..200 {
        let st = SASolver::propose_state(&current, &fixed, &mut rng).expect("no block is starved");
        assert_eq!(st.difference, st.sudoku.calculate_errors() - current.calculate_errors());
        current = st.sudoku;
    }
}

#[test]
fn completion_costs_are_nine_costs() {
    let p = board(&HARD);
    let costs = SASolver::completion_costs(&p, &mut StdRng::seed_from_u64(12));
    assert_eq!(costs.len(), 9);
    assert!(costs.iter().all(|&c| c > 0 && c <= 144));
}

#[test]
fn search_keeps_givens_and_blocks() {
    let p = board(&HARD);
    let mask = p.get_fixed_values();
    let mut rng = StdRng::seed_from_u64(13);
    let mut search = AnnealingSearch::new(&p, &mut rng);
    for i in 0..500 {
        let d = search.propose(&mut rng);
        let before = search.board().calculate_errors();
        let step = search.advance(i % 3 == 0);
        let after = search.board().calculate_errors();
        assert_eq!(search.score(), after);
        if let Some(d) = d {
            assert!(after == before || after - before == d);
        }
        assert_eq!(step == Step::Solved, after == 0);
    }
    assert_eq!(p.get_fixed_values(), mask);
    let b = search.board();
    for r in 0..9 {
        for c in 0..9 {
            if p.get(r, c) != 0 {
                assert_eq!(b.get(r, c), p.get(r, c));
            }
        }
    }
}

#[test]
fn solves_hard_puzzle() {
    let p = board(&HARD);
    let mask = p.get_fixed_values();
    let solved = run(&p, 2024, 3_000_000).expect("solved within the budget");
    assert_eq!(solved.calculate_errors(), 0);
    for r in 0..9 {
        for c in 0..9 {
            let v = solved.get(r, c);
            assert!((1..=9).contains(&v));
            if mask.get(r, c) == 1 {
                assert_eq!(v, p.get(r, c));
            }
        }
    }
    assert_eq!(p.get_fixed_values(), mask);
}

#[test]
fn batch_ends_after_as_many_steps_as_givens() {
    let p = board(&HARD);
    let mut rng = StdRng::seed_from_u64(31);
    let mut search = AnnealingSearch::new(&p, &mut rng);
    for _ in 0..3 {
        for step in 1..=22 {
            search.propose(&mut rng);
            let r = search.advance(false);
            if step < 22 {
                assert_eq!(r, Step::Continue);
            } else {
                assert!(matches!(r, Step::BatchEnd { reheat: false }));
            }
        }
    }
}

#[test]
fn movable_blocks() {
    let p = board(&HARD);
    assert!(SASolver::has_movable_block(&p.get_fixed_values()));
    assert!(SASolver::has_movable_block(&Sudoku::new().get_fixed_values()));
    let mut full = Sudoku::new();
    for r in 0..9 {
        for c in 0..9 {
            full.set(r, c, 1);
        }
    }
    assert!(!SASolver::has_movable_block(&full.get_fixed_values()));
    full.set(4, 4, 0);
    assert!(!SASolver::has_movable_block(&full.get_fixed_values()));
    full.set(3, 5, 0);
    assert!(SASolver::has_movable_block(&full.get_fixed_values()));
}
