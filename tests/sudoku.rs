use rand::rngs::StdRng;
use rand::SeedableRng;
use sudoku_anneal::sudoku::{ParseError, Sudoku};

const HARD: [&str; 9] = [
    "008002000",
    "006000095",
    "030050000",
    "200080700",
    "740000003",
    "000000400",
    "000800630",
    "000300010",
    "000724000",
];

const SOLVED: [&str; 9] = [
    "534678912",
    "672195348",
    "198342567",
    "859761423",
    "426853791",
    "713924856",
    "961537284",
    "287419635",
    "345286179",
];

fn board(rows: &[&str; 9]) -> Sudoku {
    let mut s = Sudoku::new();
    for (r, line) in rows.iter().enumerate() {
        for (c, ch) in line.chars().enumerate() {
            s.set(r, c, ch.to_digit(10).unwrap());
        }
    }
    s
}

fn block_digits(s: &Sudoku, b: usize) -> Vec<u32> {
    let mut v: Vec<u32> = Sudoku::block_positions(b)
        .iter()
        .map(|&(r, c)| s.get(r, c))
        .collect();
    v.sort();
    v
}

#[test]
fn get_and_set_cells() {
    let mut s = Sudoku::new();
    assert_eq!(s.get(4, 7), 0);
    s.set(4, 7, 6);
    assert_eq!(s.get(4, 7), 6);
    assert_eq!(s.get(7, 4), 0);
}

#[test]
fn block_positions_follow_row_then_column_groups() {
    let blocks = Sudoku::create_blocks();
    assert_eq!(blocks[0][0], (0, 0));
    assert_eq!(blocks[0][8], (2, 2));
    assert_eq!(blocks[1][0], (3, 0));
    assert_eq!(blocks[3][0], (0, 3));
    assert_eq!(blocks[8][4], (7, 7));
    assert_eq!(Sudoku::block_positions(5), blocks[5]);
}

#[test]
fn blocks_partition_the_board() {
    let blocks = Sudoku::create_blocks();
    let mut seen = [[0u32; 9]; 9];
    for block in blocks.iter() {
        for &(r, c) in block.iter() {
            seen[r][c] += 1;
        }
    }
    assert!(seen.iter().all(|row| row.iter().all(|&n| n == 1)));
}

#[test]
fn random_block_is_one_of_the_nine() {
    let blocks = Sudoku::create_blocks();
    let mut rng = StdRng::seed_from_u64(3);
    for _ in 0..50 {
        let b = Sudoku::get_random_block_positions(&mut rng);
        assert!(blocks.contains(&b));
    }
}

#[test]
fn fixed_values_mark_givens() {
    let p = board(&HARD);
    let f = p.get_fixed_values();
    assert_eq!(f.get(0, 2), 1);
    assert_eq!(f.get(0, 0), 0);
    assert_eq!(f.get(8, 5), 1);
    for r in 0..9 {
        for c in 0..9 {
            assert_eq!(f.get(r, c), if p.get(r, c) != 0 { 1 } else { 0 });
        }
    }
}

#[test]
fn random_completion_fills_each_block_with_all_digits() {
    let p = board(&HARD);
    for seed in 0..20 {
        let mut rng = StdRng::seed_from_u64(seed);
        let mut s = p;
        s.randomly_fill(&mut rng);
        for b in 0..9 {
            assert_eq!(block_digits(&s, b), vec![1, 2, 3, 4, 5, 6, 7, 8, 9]);
        }
        for r in 0..9 {
            for c in 0..9 {
                if p.get(r, c) != 0 {
                    assert_eq!(s.get(r, c), p.get(r, c));
                }
            }
        }
    }
}

#[test]
fn random_completion_depends_on_the_draw() {
    let mut a = Sudoku::new();
    let mut b = Sudoku::new();
    a.randomly_fill(&mut StdRng::seed_from_u64(1));
    b.randomly_fill(&mut StdRng::seed_from_u64(2));
    assert_ne!(a, b);
}

#[test]
fn flip_swaps_two_cells_and_keeps_block_digits() {
    let mut s = board(&HARD);
    s.randomly_fill(&mut StdRng::seed_from_u64(9));
    let before = block_digits(&s, 4);
    let (x, y) = (s.get(3, 3), s.get(5, 4));
    s.flip_elements(((3, 3), (5, 4)));
    assert_eq!(s.get(3, 3), y);
    assert_eq!(s.get(5, 4), x);
    assert_eq!(block_digits(&s, 4), before);
}

#[test]
fn cost_of_empty_board() {
    let s = Sudoku::new();
    assert_eq!(s.calculate_errors(), 162);
    assert_eq!(s.calculate_number_of_errors_for_position(2, 5), 18);
}

#[test]
fn cost_of_solved_board_is_zero() {
    let s = board(&SOLVED);
    assert_eq!(s.calculate_errors(), 0);
    assert_eq!(s.calculate_number_of_errors_for_position(0, 0), 0);
}

#[test]
fn cost_counts_repetitions() {
    let mut s = board(&SOLVED);
    // Swapping two cells of one row keeps that row but breaks two columns.
    s.flip_elements(((0, 0), (0, 1)));
    assert_eq!(s.calculate_errors(), 2);
    assert_eq!(s.calculate_number_of_errors_for_position(0, 0), 1);
    assert_eq!(s.calculate_number_of_errors_for_position(4, 4), 0);
}

#[test]
fn nonzero_cost_when_lines_repeat() {
    let p = board(&HARD);
    let mut s = p;
    s.randomly_fill(&mut StdRng::seed_from_u64(4));
    let cost = s.calculate_errors();
    assert!(cost > 0 && cost <= 144);
}

#[test]
fn two_positions_are_distinct_and_free() {
    let p = board(&HARD);
    let fixed = p.get_fixed_values();
    let mut rng = StdRng::seed_from_u64(5);
    for b in 0..9 {
        let block = Sudoku::block_positions(b);
        for _ in 0..20 {
            let (x, y) = Sudoku::get_two_random_positions_in_block(&fixed, &block, &mut rng)
                .expect("every block of this puzzle has free cells");
            assert_ne!(x, y);
            assert!(block.contains(&x) && block.contains(&y));
            assert_eq!(fixed.get(x.0, x.1), 0);
            assert_eq!(fixed.get(y.0, y.1), 0);
        }
    }
}

#[test]
fn starved_block_gives_no_positions() {
    let mut p = board(&HARD);
    // Fill block 0 but for one cell.
    let digits = [1, 2, 4, 5, 6, 7, 9, 8];
    let mut i = 0;
    for &(r, c) in Sudoku::block_positions(0).iter() {
        if p.get(r, c) == 0 && i < digits.len() {
            p.set(r, c, digits[i]);
            i += 1;
        }
    }
    let fixed = p.get_fixed_values();
    let mut rng = StdRng::seed_from_u64(6);
    let r = Sudoku::get_two_random_positions_in_block(&fixed, &Sudoku::block_positions(0), &mut rng);
    assert!(r.is_none());
    let full = board(&SOLVED).get_fixed_values();
    let r = Sudoku::get_two_random_positions_in_block(&full, &Sudoku::block_positions(3), &mut rng);
    assert!(r.is_none());
}

fn rows_of(text: &str) -> Vec<Vec<u8>> {
    text.split_whitespace().map(|t| t.as_bytes().to_vec()).collect()
}

#[test]
fn parses_digit_rows() {
    let text = HARD.join(" ");
    let s = Sudoku::from_digit_rows(&rows_of(&text)).unwrap();
    assert_eq!(s, board(&HARD));
    assert_eq!(s.get(0, 2), 8);
    assert_eq!(s.get(8, 3), 7);
    assert_eq!(s.get(0, 0), 0);
}

#[test]
fn parse_errors() {
    let short = HARD[..8].join(" ");
    assert_eq!(Sudoku::from_digit_rows(&rows_of(&short)), Err(ParseError::RowCount));
    let mut rows = rows_of(&HARD.join(" "));
    rows[4].pop();
    assert_eq!(Sudoku::from_digit_rows(&rows), Err(ParseError::RowLength));
    let mut rows = rows_of(&HARD.join(" "));
    rows[6][2] = b'x';
    assert_eq!(Sudoku::from_digit_rows(&rows), Err(ParseError::NotADigit));
}

#[test]
fn default_is_empty() {
    assert_eq!(Sudoku::default(), Sudoku::new());
    assert_eq!(Sudoku::default().get(8, 8), 0);
}

#[test]
fn parses_text_with_any_whitespace() {
    let text = format!("\n   {}\n\t{}  \n", HARD[..4].join("\n  "), HARD[4..].join(" \r\n"));
    let s: Sudoku = text.parse().unwrap();
    assert_eq!(s, board(&HARD));
    assert_eq!(Sudoku::parse(&HARD.concat()), Err(ParseError::RowCount));
    assert_eq!(Sudoku::parse("123"), Err(ParseError::RowCount));
    let bad = HARD.join(" ").replacen("008", "0.8", 1);
    assert_eq!(Sudoku::parse(&bad), Err(ParseError::NotADigit));
}

#[test]
fn text_of_solved_board() {
    let text = board(&SOLVED).to_text();
    let lines: Vec<&str> = text.lines().collect();
    assert_eq!(lines.len(), 11);
    assert_eq!(lines[0], "5 3 4 | 6 7 8 | 9 1 2 ");
    assert_eq!(lines[3], "-".repeat(21));
    assert_eq!(lines[4], "8 5 9 | 7 6 1 | 4 2 3 ");
    assert_eq!(lines[10], "3 4 5 | 2 8 6 | 1 7 9 ");
    assert!(text.ends_with("1 7 9 \n"));
}

#[test]
fn text_writes_values_in_decimal() {
    let mut s = Sudoku::new();
    s.set(0, 0, 12);
    s.set(0, 8, 305);
    let text = s.to_text();
    assert_eq!(text.lines().next().unwrap(), "12 0 0 | 0 0 0 | 0 0 305 ");
}

#[test]
fn empty_cells_are_not_digits_in_the_cost() {
    // A solved grid with every 1 emptied has nine distinct values per line but
    // lacks one digit in each row and each column.
    let mut s = board(&SOLVED);
    for r in 0..9 {
        for c in 0..9 {
            if s.get(r, c) == 1 {
                s.set(r, c, 0);
            }
        }
    }
    assert_eq!(s.calculate_errors(), 18);
    assert_eq!(s.calculate_number_of_errors_for_position(0, 0), 2);
}

#[test]
fn random_completion_with_repeated_givens() {
    let mut p = board(&HARD);
    // Block 0 gets the given 8 twice (it already holds an 8 at (0, 2)).
    p.set(1, 1, 8);
    let mut s = p;
    s.randomly_fill(&mut StdRng::seed_from_u64(21));
    let cells = Sudoku::block_positions(0);
    let givens: Vec<u32> = cells.iter().map(|&(r, c)| p.get(r, c)).filter(|&v| v != 0).collect();
    let mut written: Vec<u32> = Vec::new();
    for &(r, c) in cells.iter() {
        if p.get(r, c) == 0 {
            let v = s.get(r, c);
            assert!((1..=9).contains(&v));
            assert!(!givens.contains(&v));
            assert!(!written.contains(&v));
            written.push(v);
        } else {
            assert_eq!(s.get(r, c), p.get(r, c));
        }
    }
    for b in 1..9 {
        assert_eq!(block_digits(&s, b), vec![1, 2, 3, 4, 5, 6, 7, 8, 9]);
    }
}

#[test]
fn from_str_reads_sample_puzzle() {
    let s: Sudoku = "008002000 006000095 030050000 200080700 740000003 000000400 000800630 000300010 000724000"
        .parse()
        .unwrap();
    let row = |r: usize| (0..9).map(|c| s.get(r, c)).collect::<Vec<u32>>();
    assert_eq!(row(0), vec![0, 0, 8, 0, 0, 2, 0, 0, 0]);
    assert_eq!(row(4), vec![7, 4, 0, 0, 0, 0, 0, 0, 3]);
    assert_eq!(row(8), vec![0, 0, 0, 7, 2, 4, 0, 0, 0]);
    let bad = "a08002000 006000095 030050000 200080700 740000003 000000400 000800630 000300010 000724000"
        .parse::<Sudoku>();
    assert_eq!(bad, Err(ParseError::NotADigit));
    let long = "0080020000 006000095 030050000 200080700 740000003 000000400 000800630 000300010 000724000"
        .parse::<Sudoku>();
    assert_eq!(long, Err(ParseError::RowLength));
}
