use game::minesweeper::{Minesweeper, MoveResult};

fn field_with_mines(width: usize, height: usize, mines: &[(usize, usize)]) -> Minesweeper {
    let mut ms = Minesweeper::empty(width, height);
    for &(x, y) in mines {
        ms.mine_board[x + y * width] = true;
    }
    ms.compute_adjacency_board();
    ms
}

fn snapshot(ms: &Minesweeper) -> Vec<(i16, bool)> {
    let mut v = Vec::new();
    for y in 0..ms.get_height() {
        for x in 0..ms.get_width() {
            v.push((ms.cell_at(x, y), ms.flag_at(x, y)));
        }
    }
    v
}

#[test]
fn empty_field_is_all_hidden_and_unmined() {
    let ms = Minesweeper::empty(3, 2);
    assert_eq!(ms.get_width(), 3);
    assert_eq!(ms.get_height(), 2);
    assert!(ms.is_active());
    for y in 0..2 {
        for x in 0..3 {
            assert!(!ms.mine_at(x, y));
            assert!(!ms.flag_at(x, y));
            assert_eq!(ms.cell_at(x, y), -1);
            assert_eq!(ms.adjacency_at(x, y), 0);
        }
    }
}

#[test]
fn random_mines_count_matches_density_floor() {
    let width = 20usize;
    let height = 10usize;
    let density: f32 = 0.2;
    let count = (((width * height) as f32) * density) as usize;
    assert_eq!(count, 40);
    let ms = Minesweeper::with_random_mines(width, height, count);
    let mut mined = 0;
    for y in 0..height {
        for x in 0..width {
            if ms.mine_at(x, y) {
                mined += 1;
            }
            assert_eq!(ms.cell_at(x, y), -1);
            assert!(!ms.flag_at(x, y));
        }
    }
    assert_eq!(mined, count);
}

#[test]
fn adjacency_counts_match_neighborhoods() {
    let ms = Minesweeper::with_random_mines(9, 7, 12);
    let w = 9i64;
    let h = 7i64;
    for y in 0..h {
        for x in 0..w {
            let mut expected = 0u16;
            for dy in -1..=1i64 {
                for dx in -1..=1i64 {
                    if dx == 0 && dy == 0 {
                        continue;
                    }
                    let nx = x + dx;
                    let ny = y + dy;
                    if 0 <= nx && nx < w && 0 <= ny && ny < h
                        && ms.mine_at(nx as usize, ny as usize)
                    {
                        expected += 1;
                    }
                }
            }
            assert_eq!(ms.adjacency_at(x as usize, y as usize), expected);
        }
    }
}

#[test]
fn adjacency_of_fixed_layout() {
    // 3x3 with one mine in the middle
    let ms = field_with_mines(3, 3, &[(1, 1)]);
    for y in 0..3 {
        for x in 0..3 {
            if (x, y) == (1, 1) {
                assert_eq!(ms.adjacency_at(x, y), 0);
            } else {
                assert_eq!(ms.adjacency_at(x, y), 1);
            }
        }
    }
}

#[test]
fn move_on_revealed_cell_is_useless_and_changes_nothing() {
    // mine at the far end; revealing the start opens only two cells
    let mut ms = field_with_mines(5, 1, &[(2, 0)]);
    let r = ms.game_move(0, 0, false);
    assert!(matches!(r, MoveResult::Continue));
    assert_eq!(ms.cell_at(0, 0), 0);
    assert_eq!(ms.cell_at(1, 0), 1);
    assert_eq!(ms.cell_at(3, 0), -1);
    let before = snapshot(&ms);
    let started = ms.is_active();
    let r2 = ms.game_move(1, 0, false);
    assert!(matches!(r2, MoveResult::Useless));
    assert_eq!(snapshot(&ms), before);
    assert_eq!(ms.is_active(), started);
}

#[test]
fn move_on_mined_cell_reveals_every_mine_and_loses() {
    let mut ms = field_with_mines(4, 2, &[(0, 0), (3, 1)]);
    let r = ms.game_move(0, 0, false);
    assert!(matches!(r, MoveResult::Lost));
    assert!(!ms.is_active());
    assert_eq!(ms.cell_at(0, 0), 9);
    assert_eq!(ms.cell_at(3, 1), 9);
    // non-mined cells stay hidden
    assert_eq!(ms.cell_at(1, 0), -1);
    assert_eq!(ms.cell_at(2, 1), -1);
    // and a later move reports the finished game
    let r2 = ms.game_move(1, 0, false);
    assert!(matches!(r2, MoveResult::NotStarted));
}

#[test]
fn cascade_on_mine_free_field_reveals_everything_and_wins() {
    let mut ms = Minesweeper::empty(3, 3);
    let r = ms.game_move(0, 0, false);
    assert!(matches!(r, MoveResult::Won));
    assert!(!ms.is_active());
    for y in 0..3 {
        for x in 0..3 {
            assert_eq!(ms.cell_at(x, y), 0);
        }
    }
}

#[test]
fn cascade_never_reveals_a_flagged_cell() {
    let mut ms = Minesweeper::empty(3, 3);
    let r = ms.game_move(2, 2, true);
    assert!(matches!(r, MoveResult::UserMineToggled));
    let r2 = ms.game_move(0, 0, false);
    // the flagged cell stays hidden, so the game is not yet won
    assert!(matches!(r2, MoveResult::Continue));
    assert_eq!(ms.cell_at(2, 2), -1);
    assert!(ms.flag_at(2, 2));
    for y in 0..3 {
        for x in 0..3 {
            if (x, y) != (2, 2) {
                assert_eq!(ms.cell_at(x, y), 0);
            }
        }
    }
}

#[test]
fn flag_toggle_marks_and_unmarks_a_hidden_cell() {
    let mut ms = field_with_mines(2, 2, &[(1, 1)]);
    let r = ms.game_move(0, 0, true);
    assert!(matches!(r, MoveResult::UserMineToggled));
    assert!(ms.flag_at(0, 0));
    assert_eq!(ms.cell_at(0, 0), -1);
    let r2 = ms.game_move(0, 0, true);
    assert!(matches!(r2, MoveResult::UserMineToggled));
    assert!(!ms.flag_at(0, 0));
    assert_eq!(ms.cell_at(0, 0), -1);
}

#[test]
fn reveal_of_flagged_cell_is_rejected() {
    let mut ms = field_with_mines(2, 2, &[(1, 1)]);
    ms.game_move(0, 0, true);
    let before = snapshot(&ms);
    let r = ms.game_move(0, 0, false);
    assert!(matches!(r, MoveResult::UserMineThere));
    assert_eq!(snapshot(&ms), before);
}

#[test]
fn winning_by_revealing_the_last_safe_cell() {
    let mut ms = field_with_mines(2, 1, &[(1, 0)]);
    let r = ms.game_move(0, 0, false);
    assert!(matches!(r, MoveResult::Won));
    assert!(!ms.is_active());
    assert_eq!(ms.cell_at(0, 0), 1);
    assert_eq!(ms.cell_at(1, 0), -1);
}

#[test]
fn character_width_of_dimensions() {
    assert_eq!(Minesweeper::empty(5, 3).get_character_width(), 1);
    assert_eq!(Minesweeper::empty(20, 10).get_character_width(), 2);
    assert_eq!(Minesweeper::empty(100, 2).get_character_width(), 3);
    assert_eq!(Minesweeper::empty(7, 4000).get_character_width(), 4);
}

#[test]
fn is_won_reports_the_winning_condition() {
    let ms = field_with_mines(2, 1, &[(1, 0)]);
    assert!(!ms.is_won());
    let mut ms2 = field_with_mines(2, 1, &[(1, 0)]);
    ms2.game_move(0, 0, false);
    assert!(ms2.is_won());
}
