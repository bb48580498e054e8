use boole::bits::{adder, calculate_interleaved, gray_code, multiplier};
use boole::eval::sat;
use boole::formula::FormulaError;
use boole::kmap::{
    check_current_cell, convert_group_rpn, create_16, grouping, karnaugh_map, karnaugh_map2,
    karnaugh_map3, karnaugh_map4, missing_trues, pending_false, sort_letters, Kmapzero, Literal,
};
use boole::power::{parse, powerset};

#[test]
fn adder_matches_addition() {
    assert_eq!(adder(10, 30), 40);
    assert_eq!(adder(0, 0), 0);
    assert_eq!(adder(u32::MAX, 1), 0);
    assert_eq!(adder(u32::MAX, u32::MAX), u32::MAX.wrapping_add(u32::MAX));
    assert_eq!(adder(123_456_789, 987_654_321), 1_111_111_110);
}

#[test]
fn multiplier_matches_multiplication() {
    assert_eq!(multiplier(10, 30), 300);
    assert_eq!(multiplier(0, 77), 0);
    assert_eq!(multiplier(77, 0), 0);
    assert_eq!(multiplier(1 << 31, 2), 0);
    assert_eq!(multiplier(65_537, 65_535), 65_537u32.wrapping_mul(65_535));
}

#[test]
fn gray_code_expected_values() {
    let expected = [0, 1, 3, 2, 6, 7, 5, 4, 12];
    for (n, want) in expected.iter().enumerate() {
        assert_eq!(gray_code(n as u32), *want);
    }
}

#[test]
fn gray_code_neighbours_differ_in_one_bit() {
    for n in 0u32..15 {
        let diff = gray_code(n) ^ gray_code(n + 1);
        assert_eq!(diff.count_ones(), 1);
    }
}

#[test]
fn interleaved_z_order() {
    assert_eq!(calculate_interleaved(5, 12), 114);
    assert_eq!(calculate_interleaved(0, 0), 0);
    assert_eq!(calculate_interleaved(1, 0), 2);
    assert_eq!(calculate_interleaved(0, 1), 1);
    assert_eq!(calculate_interleaved(u16::MAX, u16::MAX), 0xFFFF_FFFF);
}

#[test]
fn powerset_enumerates_all_subsets() {
    let sets = powerset(vec![1, 2, 3]);
    assert_eq!(sets.len(), 8);
    assert_eq!(sets[0], Vec::<i32>::new());
    assert_eq!(sets[1], vec![1]);
    assert_eq!(sets[2], vec![2]);
    assert_eq!(sets[3], vec![1, 2]);
    assert_eq!(sets[4], vec![3]);
    assert_eq!(sets[5], vec![1, 3]);
    assert_eq!(sets[6], vec![2, 3]);
    assert_eq!(sets[7], vec![1, 2, 3]);
    assert_eq!(powerset(vec![]).len(), 1);
    assert_eq!(powerset(vec![1, 2, 3, 4]).len(), 16);
}

#[test]
fn powerset_positions_are_powers_of_two() {
    let tagged = parse(&vec![7, 8, 9]);
    assert_eq!(tagged.len(), 3);
    assert_eq!((tagged[0].value, tagged[0].position), (7, 1));
    assert_eq!((tagged[1].value, tagged[1].position), (8, 2));
    assert_eq!((tagged[2].value, tagged[2].position), (9, 4));
}

#[test]
fn karnaugh_constants() {
    // a tautology over two variables minimizes to the constant true
    assert_eq!(karnaugh_map("A!A|B!B|&").unwrap(), "1");
    // an always-false formula over two variables minimizes to constant false
    assert_eq!(karnaugh_map("AA!&BB!&|").unwrap(), "0");
}

#[test]
fn karnaugh_variable_count_limits() {
    assert_eq!(karnaugh_map("AA!&"), Err(FormulaError::TooFewVariables));
    assert_eq!(karnaugh_map("AB&C&D&E&"), Err(FormulaError::TooManyVariables));
    assert_eq!(karnaugh_map("A0&"), Err(FormulaError::MalformedFormula));
}

#[test]
fn karnaugh_single_false_cell() {
    // the only falsifying assignment is A true, B false; its complement
    // clause is the minimized formula
    assert_eq!(karnaugh_map("AB!&!").unwrap(), "A!B|");
}

#[test]
fn karnaugh_output_equivalent_to_original() {
    for s in ["AB&", "AB|C&", "CD^A!A|&B!B|&", "AB^", "AB&C|D>", "AB|C!D|&"] {
        let out = karnaugh_map(s).unwrap();
        let check = format!("{}{}=!", s, out);
        assert_eq!(sat(&check), Ok(false), "minimizing {s}");
    }
}

#[test]
fn karnaugh_direct_entry_points() {
    let mut two = vec!['A', 'B'];
    assert_eq!(karnaugh_map2("AB&", &mut two).unwrap(), karnaugh_map("AB&").unwrap());
    let mut three = vec!['A', 'B', 'C'];
    assert_eq!(karnaugh_map3("AB&C|", &mut three).unwrap(), karnaugh_map("AB&C|").unwrap());
    let mut four = vec!['A', 'B', 'C', 'D'];
    assert_eq!(karnaugh_map4("AB&CD&|", &mut four).unwrap(), karnaugh_map("AB&CD&|").unwrap());
}

#[test]
fn sort_letters_alphabetical() {
    assert_eq!(sort_letters(&vec!['C', 'A', 'B']), vec!['A', 'B', 'C']);
    assert_eq!(sort_letters(&vec!['Z', 'Z', 'A']), vec!['A', 'Z']);
    assert_eq!(sort_letters(&vec![]), Vec::<char>::new());
}

#[test]
fn convert_groups_to_postfix() {
    assert_eq!(convert_group_rpn("0".to_string()), "0");
    assert_eq!(convert_group_rpn("1".to_string()), "1");
    assert_eq!(convert_group_rpn("(A)".to_string()), "A");
    assert_eq!(convert_group_rpn("(A+B!)".to_string()), "AB!|");
    assert_eq!(convert_group_rpn("(A+B!)(C)".to_string()), "AB!|C&");
    assert_eq!(convert_group_rpn("(A+B)(C+D)(E)".to_string()), "AB|CD|E&&");
}

#[test]
fn cell_bookkeeping() {
    let cell = |row: usize, col: usize, grouped: bool| Kmapzero {
        row,
        col,
        grouped,
        form: vec![
            Literal { name: 'A', negated: row == 1 },
            Literal { name: 'B', negated: col == 1 },
        ],
    };
    let cells = vec![cell(0, 0, false), cell(0, 1, true), cell(1, 0, false)];
    assert!(pending_false(&cells));
    assert_eq!(missing_trues(&cells), 2);
    assert!(check_current_cell(&cells, 0, 0));
    assert!(!check_current_cell(&cells, 0, 1));
    assert!(!check_current_cell(&cells, 1, 1));
    let claimed = create_16(&cells);
    assert_eq!(missing_trues(&claimed), 0);
    assert!(!pending_false(&claimed));
}

#[test]
fn grouping_whole_grid_and_empty_grid() {
    let mut empty: Vec<Kmapzero> = Vec::new();
    assert_eq!(grouping(2, 2, &mut empty), "1");
    let mut full: Vec<Kmapzero> = Vec::new();
    for row in 0..2usize {
        for col in 0..2usize {
            full.push(Kmapzero {
                row,
                col,
                grouped: false,
                form: vec![
                    Literal { name: 'A', negated: row == 1 },
                    Literal { name: 'B', negated: col == 1 },
                ],
            });
        }
    }
    assert_eq!(grouping(2, 2, &mut full), "0");
    assert_eq!(missing_trues(&full), 0);
}

#[test]
fn direction_searches_claim_runs() {
    let cell = |row: usize, col: usize| Kmapzero {
        row,
        col,
        grouped: false,
        form: vec![
            Literal { name: 'A', negated: row == 1 },
            Literal { name: 'B', negated: col == 1 },
        ],
    };
    // a full column of a 2x2 grid, claimed upward from its bottom cell
    let mut cells = vec![cell(0, 0), cell(1, 0)];
    let forms = boole::kmap::check_up(&mut cells, 1, 0, 2, 2).unwrap();
    assert_eq!(forms.len(), 2);
    assert_eq!(missing_trues(&cells), 0);
    // the same grid has no run of two in the empty column
    let mut cells = vec![cell(0, 0), cell(1, 0)];
    assert!(boole::kmap::check_up(&mut cells, 0, 1, 2, 2).is_none());
    assert!(boole::kmap::check_down(&mut cells, 0, 1, 2, 2).is_none());
    assert_eq!(missing_trues(&cells), 2);
    // a full row, claimed leftward and rightward
    let mut cells = vec![cell(0, 0), cell(0, 1)];
    assert!(boole::kmap::check_left(&mut cells, 0, 0, 2, 2).is_some());
    assert_eq!(missing_trues(&cells), 0);
    let mut cells = vec![cell(0, 0), cell(0, 1)];
    assert!(boole::kmap::check_right(&mut cells, 0, 0, 2, 2).is_some());
    assert_eq!(missing_trues(&cells), 0);
}

#[test]
fn mark_cell_claims_one_position() {
    let mut cells = vec![
        Kmapzero { row: 0, col: 0, grouped: false, form: vec![Literal { name: 'A', negated: true }] },
        Kmapzero { row: 0, col: 1, grouped: false, form: vec![Literal { name: 'B', negated: false }] },
    ];
    let form = boole::kmap::mark_cell(&mut cells, 0, 1);
    assert_eq!(form, vec![Literal { name: 'B', negated: false }]);
    assert!(!cells[0].grouped);
    assert!(cells[1].grouped);
}

#[test]
fn intersection_keeps_common_literals() {
    let a = Literal { name: 'A', negated: false };
    let not_b = Literal { name: 'B', negated: true };
    let c = Literal { name: 'C', negated: false };
    let forms = vec![vec![a, not_b, c], vec![a, c], vec![c, a]];
    let common = boole::kmap::intersect_forms(&forms);
    assert_eq!(common, vec![a, c]);
}

#[test]
fn square_group_drops_both_varying_variables() {
    // in a 4x4 grid, four cells in a square share only the two variables
    // that do not vary across the square
    let form = |r: usize, c: usize| {
        vec![
            Literal { name: 'A', negated: r >= 2 },
            Literal { name: 'B', negated: r == 1 || r == 2 },
            Literal { name: 'C', negated: c >= 2 },
            Literal { name: 'D', negated: c == 1 || c == 2 },
        ]
    };
    let mut cells: Vec<Kmapzero> = Vec::new();
    for (r, c) in [(0usize, 0usize), (0, 1), (1, 0), (1, 1)] {
        cells.push(Kmapzero { row: r, col: c, grouped: false, form: form(r, c) });
    }
    let info = boole::kmap::KmapInfo {
        rows: 4,
        cols: 4,
        group_type: boole::kmap::Groups::TwoTwo,
        amount: 2,
    };
    let forms = boole::kmap::check_square(&mut cells, 1, 1, info).unwrap();
    assert_eq!(forms.len(), 4);
    let common = boole::kmap::intersect_forms(&forms);
    assert_eq!(
        common,
        vec![Literal { name: 'A', negated: false }, Literal { name: 'C', negated: false }]
    );
    assert_eq!(missing_trues(&cells), 0);
}

#[test]
fn karnaugh_three_variables_equivalent() {
    for s in ["AB&C&", "AB|C^", "AC>B&"] {
        let out = karnaugh_map(s).unwrap();
        let check = format!("{}{}=!", s, out);
        assert_eq!(sat(&check), Ok(false), "minimizing {s}");
    }
}
