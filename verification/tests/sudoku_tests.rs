use game::sudoku::Sudoku;

#[test]
fn candidates_of_empty_mask_are_all_values() {
    assert_eq!(Sudoku::get_possible_numbers(0), vec![1, 2, 3, 4, 5, 6, 7, 8, 9]);
}

#[test]
fn candidates_of_full_mask_are_empty() {
    assert_eq!(Sudoku::get_possible_numbers(0b111111111), Vec::<u16>::new());
}

#[test]
fn candidates_of_partial_masks() {
    assert_eq!(Sudoku::get_possible_numbers(0b111111100), vec![1, 2]);
    assert_eq!(Sudoku::get_possible_numbers(0b111111110), vec![1]);
    assert_eq!(Sudoku::get_possible_numbers(0b000000001), vec![2, 3, 4, 5, 6, 7, 8, 9]);
    assert_eq!(Sudoku::get_possible_numbers(0b101010101), vec![2, 4, 6, 8]);
}

#[test]
fn bitmask_of_values() {
    assert_eq!(Sudoku::convert_to_bitmask(0), 0);
    assert_eq!(Sudoku::convert_to_bitmask(1), 0b1);
    assert_eq!(Sudoku::convert_to_bitmask(5), 0b10000);
    assert_eq!(Sudoku::convert_to_bitmask(9), 0b100000000);
}

#[test]
fn index_transforms() {
    assert_eq!(Sudoku::transform_to_idx(4, 7), 67);
    assert_eq!(Sudoku::transform_to_x_y(67), (4, 7));
    assert_eq!(Sudoku::transform_to_x_y(0), (0, 0));
    assert_eq!(Sudoku::transform_to_idx(8, 8), 80);
    assert_eq!(Sudoku::get_index_in_row(2, 5), 23);
    assert_eq!(Sudoku::get_index_in_column(2, 5), 47);
    assert_eq!(Sudoku::get_index_in_block(1, 2, 4), 67);
}

#[test]
fn insert_value_rejects_bad_input() {
    let mut s = Sudoku::new();
    assert!(!s.insert_value(9, 0, 1));
    assert!(!s.insert_value(0, 9, 1));
    assert!(!s.insert_value(0, 0, 10));
    // nothing was placed
    assert_eq!(s.get_value(0, 0), 0);
}

#[test]
fn insert_value_updates_masks_of_row_column_block() {
    let mut s = Sudoku::new();
    assert!(s.insert_value(0, 0, 5));
    assert_eq!(s.get_value(0, 0), 5);
    let bit5 = 0b10000;
    // same row, same column, same block all exclude 5 now
    assert_eq!(s.get_mask(8, 0) & bit5, bit5);
    assert_eq!(s.get_mask(0, 8) & bit5, bit5);
    assert_eq!(s.get_mask(2, 2) & bit5, bit5);
    // an unrelated cell is untouched
    assert_eq!(s.get_mask(4, 4), 0);
    // a peer cannot take the same value
    assert!(!s.insert_value(8, 0, 5));
}

#[test]
fn insert_value_replacement_clears_old_bit() {
    let mut s = Sudoku::new();
    assert!(s.insert_value(0, 0, 5));
    assert!(s.insert_value(0, 0, 3));
    let bit5 = 0b10000;
    let bit3 = 0b100;
    assert_eq!(s.get_mask(8, 0) & bit5, 0);
    assert_eq!(s.get_mask(8, 0) & bit3, bit3);
    assert_eq!(s.get_value(0, 0), 3);
}

#[test]
fn fresh_board_state() {
    let s = Sudoku::new();
    assert!(!s.is_solved());
    assert!(s.is_valid());
    assert!(s.is_board_valid());
    assert_eq!(s.find_lowest(), Some(0));
}

fn assert_board_valid(s: &Sudoku) {
    // every cell filled with 1..=9
    for y in 0..9 {
        for x in 0..9 {
            let v = s.get_value(x, y);
            assert!(1 <= v && v <= 9);
        }
    }
    // each row, column and block holds every value exactly once
    for unit in 0..9 {
        let mut row = [0u8; 10];
        let mut col = [0u8; 10];
        let mut block = [0u8; 10];
        for k in 0..9 {
            row[s.get_value(k, unit) as usize] += 1;
            col[s.get_value(unit, k) as usize] += 1;
            let bx = unit % 3;
            let by = unit / 3;
            block[s.get_value(bx * 3 + k % 3, by * 3 + k / 3) as usize] += 1;
        }
        for v in 1..=9 {
            assert_eq!(row[v], 1);
            assert_eq!(col[v], 1);
            assert_eq!(block[v], 1);
        }
    }
}

#[test]
fn fill_board_produces_a_valid_solution() {
    let mut s = Sudoku::new();
    s.fill_board();
    assert!(s.is_solved());
    assert!(s.is_board_valid());
    assert_board_valid(&s);
}

#[test]
fn repeated_generation_always_terminates_and_is_valid() {
    for _ in 0..100 {
        let mut s = Sudoku::new();
        s.fill_board();
        assert_board_valid(&s);
    }
}
