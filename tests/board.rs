use game2048::game_state::{initial_power, GameState};
use game2048::model::{Direction, Tile};

fn state(powers: [u32; 16]) -> GameState {
    GameState {
        score_current: 0,
        score_best: 0,
        field: powers.iter().map(|&p| Tile::init(p)).collect(),
        changed_this_turn: false,
    }
}

fn powers(s: &GameState) -> Vec<u32> {
    s.field.iter().map(|t| t.power).collect()
}

fn occupied_cells(s: &GameState) -> Vec<usize> {
    (0..16).filter(|&i| s.field[i].power != 0).collect()
}

#[test]
fn shift_left_merges_pair_at_far_end() {
    let mut s = state([0, 0, 2, 2, 0, 0, 0, 0, 0, 0, 0, 0, 0, 0, 0, 0]);
    s.shift_left();
    assert_eq!(&powers(&s)[0..4], &[4, 0, 0, 0]);
    assert_eq!(s.score_current, 4);
    assert!(s.changed_this_turn);
}

#[test]
fn shift_left_three_equal_merges_once() {
    let mut s = state([2, 2, 2, 0, 0, 0, 0, 0, 0, 0, 0, 0, 0, 0, 0, 0]);
    s.shift_left();
    assert_eq!(&powers(&s)[0..4], &[4, 2, 0, 0]);
    assert_eq!(s.score_current, 4);
}

#[test]
fn shift_left_with_gap() {
    let mut s = state([2, 0, 2, 2, 0, 0, 0, 0, 0, 0, 0, 0, 0, 0, 0, 0]);
    s.shift_left();
    assert_eq!(&powers(&s)[0..4], &[4, 2, 0, 0]);
    assert_eq!(s.score_current, 4);
}

#[test]
fn shift_right_mirrors_left() {
    let mut s = state([2, 2, 0, 0, 0, 0, 0, 0, 0, 0, 0, 0, 0, 0, 0, 0]);
    s.shift_right();
    assert_eq!(&powers(&s)[0..4], &[0, 0, 0, 4]);
    assert_eq!(s.score_current, 4);
}

#[test]
fn shift_up_and_down_move_columns() {
    let mut s = state([2, 0, 0, 0, 0, 0, 0, 0, 2, 0, 0, 0, 4, 0, 0, 0]);
    s.shift_up();
    // The 4 cannot merge into the tile that has just merged, so it stacks
    // next to it.
    assert_eq!(powers(&s), vec![4, 0, 0, 0, 4, 0, 0, 0, 0, 0, 0, 0, 0, 0, 0, 0]);
    assert_eq!(s.score_current, 4);
    s.shift_down();
    assert_eq!(powers(&s), vec![0, 0, 0, 0, 0, 0, 0, 0, 0, 0, 0, 0, 8, 0, 0, 0]);
    assert_eq!(s.score_current, 12);
}

#[test]
fn shift_into_wall_changes_nothing() {
    let mut s = state([2, 4, 0, 0, 8, 0, 0, 0, 0, 0, 0, 0, 0, 0, 0, 0]);
    let before = powers(&s);
    s.shift(Direction::Left);
    assert_eq!(powers(&s), before);
    assert!(!s.changed_this_turn);
    assert_eq!(s.score_current, 0);
}

#[test]
fn merge_flags_cleared_after_shift() {
    let mut s = state([2, 2, 4, 4, 8, 8, 0, 0, 2, 0, 2, 0, 0, 0, 0, 0]);
    s.shift_left();
    assert!(s.field.iter().all(|t| !t.merged_this_turn));
    let mut t = state([2, 4, 0, 0, 0, 0, 0, 0, 0, 0, 0, 0, 0, 0, 0, 0]);
    t.shift_left();
    assert!(t.field.iter().all(|t| !t.merged_this_turn));
}

#[test]
fn shift_conserves_total_value() {
    let start = [2, 2, 4, 8, 4, 0, 4, 2, 16, 16, 16, 0, 2, 4, 2, 4];
    for d in [Direction::Left, Direction::Right, Direction::Up, Direction::Down] {
        let mut s = state(start);
        let count_before = occupied_cells(&s).len();
        s.shift(d);
        let sum_after: u32 = powers(&s).iter().sum();
        assert_eq!(sum_after, start.iter().sum::<u32>());
        assert!(occupied_cells(&s).len() < count_before);
    }
    let mut slide = state([0, 2, 0, 4, 0, 0, 8, 0, 0, 0, 0, 0, 0, 0, 0, 0]);
    slide.shift_left();
    let mut values = powers(&slide);
    values.sort();
    assert_eq!(values, vec![0, 0, 0, 0, 0, 0, 0, 0, 0, 0, 0, 0, 0, 2, 4, 8]);
}

#[test]
fn left_then_right_keeps_row_order_without_merges() {
    let mut s = state([2, 0, 4, 0, 0, 8, 0, 2, 4, 2, 4, 2, 0, 0, 0, 16]);
    s.shift_left();
    assert_eq!(powers(&s), vec![2, 4, 0, 0, 8, 2, 0, 0, 4, 2, 4, 2, 16, 0, 0, 0]);
    s.shift_right();
    assert_eq!(powers(&s), vec![0, 0, 2, 4, 0, 0, 8, 2, 4, 2, 4, 2, 0, 0, 0, 16]);
    assert_eq!(s.score_current, 0);
}

#[test]
fn left_then_right_loses_merged_tiles() {
    let mut s = state([2, 2, 0, 0, 0, 0, 0, 0, 0, 0, 0, 0, 0, 0, 0, 0]);
    s.shift_left();
    s.shift_right();
    assert_eq!(&powers(&s)[0..4], &[0, 0, 0, 4]);
}

#[test]
fn no_more_turns_on_stuck_board() {
    let s = state([2, 4, 2, 4, 4, 2, 4, 2, 2, 4, 2, 4, 4, 2, 4, 2]);
    assert!(s.no_more_turns());
}

#[test]
fn no_more_turns_false_with_empty_cell() {
    let s = state([2, 4, 2, 4, 4, 2, 4, 2, 2, 4, 0, 4, 4, 2, 4, 2]);
    assert!(!s.no_more_turns());
}

#[test]
fn no_more_turns_false_with_equal_neighbours() {
    let horizontal = state([2, 2, 8, 4, 4, 8, 4, 2, 2, 4, 2, 4, 4, 2, 4, 2]);
    assert!(!horizontal.no_more_turns());
    let vertical = state([2, 4, 2, 4, 2, 8, 4, 2, 8, 4, 2, 4, 4, 2, 4, 2]);
    assert!(!vertical.no_more_turns());
}

#[test]
fn restart_keeps_best_score() {
    let mut s = state([2, 4, 2, 4, 4, 2, 4, 2, 2, 4, 2, 4, 4, 2, 4, 2]);
    s.score_current = 120;
    s.score_best = 80;
    let r = s.restart();
    assert_eq!(r.score_best, 120);
    assert_eq!(r.score_current, 0);
    s.score_best = 300;
    let r = s.restart();
    assert_eq!(r.score_best, 300);
    assert_eq!(r.score_current, 0);
    assert_eq!(occupied_cells(&r).len(), 2);
}

#[test]
fn initial_power_draws() {
    assert_eq!(initial_power(0), 4);
    assert_eq!(initial_power(10), 4);
    assert_eq!(initial_power(7), 2);
    assert_eq!(initial_power(11), 2);
}

#[test]
fn start_places_two_tiles() {
    // first = 5: column 1, row 1; second = 4: the second tile goes to
    // column 2, row 2.
    let s = GameState::start(5, 4, 10, 3);
    let mut expected = vec![0u32; 16];
    expected[5] = 4;
    expected[10] = 2;
    assert_eq!(powers(&s), expected);
    assert_eq!(s.score_current, 0);
    assert_eq!(s.score_best, 0);
    assert!(!s.changed_this_turn);
}

#[test]
fn init_tiles_in_distinct_rows_and_columns() {
    for _ in 0..50 {
        let s = GameState::init();
        let cells = occupied_cells(&s);
        assert_eq!(cells.len(), 2);
        assert_ne!(cells[0] % 4, cells[1] % 4);
        assert_ne!(cells[0] / 4, cells[1] / 4);
        for &c in &cells {
            assert!(s.field[c].power == 2 || s.field[c].power == 4);
        }
    }
}

#[test]
fn place_tile_fills_selected_empty_cell() {
    let mut s = state([2, 0, 4, 0, 0, 0, 0, 0, 0, 0, 0, 0, 0, 0, 0, 8]);
    // Empty cells in index order: 1, 3, 4, ..., 14; pick 1 selects cell 3.
    s.place_tile(1, 0);
    let mut expected = vec![2, 0, 4, 4, 0, 0, 0, 0, 0, 0, 0, 0, 0, 0, 0, 8];
    assert_eq!(powers(&s), expected);
    // 12 empty cells remain (1, 4, 5, ..., 14); pick 13 wraps round to the
    // second one, cell 4.
    s.place_tile(13, 3);
    expected[4] = 2;
    assert_eq!(powers(&s), expected);
}

#[test]
fn place_tile_on_full_board_is_no_op() {
    let mut s = state([2, 4, 2, 4, 4, 2, 4, 2, 2, 4, 2, 4, 4, 2, 4, 2]);
    let before = powers(&s);
    s.place_tile(3, 0);
    assert_eq!(powers(&s), before);
}

#[test]
fn add_tile_fills_exactly_one_empty_cell() {
    for _ in 0..50 {
        let mut s = state([2, 0, 4, 0, 0, 8, 0, 0, 0, 0, 16, 0, 0, 0, 0, 2]);
        let before = powers(&s);
        s.add_tile();
        let after = powers(&s);
        let changed: Vec<usize> = (0..16).filter(|&i| before[i] != after[i]).collect();
        assert_eq!(changed.len(), 1);
        assert_eq!(before[changed[0]], 0);
        assert!(after[changed[0]] == 2 || after[changed[0]] == 4);
    }
}

#[test]
fn total_power_sums_values() {
    let s = state([2, 0, 4, 0, 0, 8, 0, 0, 0, 0, 16, 0, 0, 0, 0, 2]);
    assert_eq!(s.total_power(), 32);
}

#[test]
fn clear_changed_flag_resets() {
    let mut s = state([0, 2, 0, 0, 0, 0, 0, 0, 0, 0, 0, 0, 0, 0, 0, 0]);
    s.shift_left();
    assert!(s.changed_this_turn);
    s.clear_changed_flag();
    assert!(!s.changed_this_turn);
}

#[test]
fn take_turn_spawns_after_a_move() {
    let mut s = state([0, 2, 0, 0, 0, 0, 0, 0, 0, 0, 0, 0, 0, 0, 0, 0]);
    s.take_turn(Direction::Left);
    let p = powers(&s);
    assert_eq!(p[0], 2);
    assert_eq!(occupied_cells(&s).len(), 2);
    assert!(!s.changed_this_turn);
}

#[test]
fn take_turn_without_effect_spawns_nothing() {
    let mut s = state([2, 4, 0, 0, 0, 0, 0, 0, 0, 0, 0, 0, 0, 0, 0, 0]);
    s.take_turn(Direction::Left);
    assert_eq!(occupied_cells(&s).len(), 2);
    assert_eq!(&powers(&s)[0..2], &[2, 4]);
}

#[test]
fn take_turn_restarts_when_stuck() {
    // Shifting left merges the first row's 2s (score 4) and frees the last
    // cell of that row; a 2 or a 4 there leaves no move, so a new game starts.
    let mut s = state([2, 2, 8, 16, 16, 32, 64, 128, 4, 8, 16, 32, 16, 32, 64, 128]);
    s.score_best = 2;
    s.take_turn(Direction::Left);
    assert_eq!(s.score_current, 0);
    assert_eq!(s.score_best, 4);
    assert_eq!(occupied_cells(&s).len(), 2);
}

#[test]
fn shift_without_effect_clears_stale_changed_flag() {
    let mut s = state([0; 16]);
    s.changed_this_turn = true;
    s.shift_left();
    assert!(!s.changed_this_turn);
    let mut t = state([2, 4, 0, 0, 0, 0, 0, 0, 0, 0, 0, 0, 0, 0, 0, 0]);
    t.changed_this_turn = true;
    t.shift_left();
    assert!(!t.changed_this_turn);
    t.shift_right();
    assert!(t.changed_this_turn);
}

#[test]
fn tile_stacks_against_tile_merged_this_turn() {
    let mut s = state([2, 2, 0, 4, 0, 0, 0, 0, 0, 0, 0, 0, 0, 0, 0, 0]);
    s.shift_left();
    assert_eq!(&powers(&s)[0..4], &[4, 4, 0, 0]);
    assert_eq!(s.score_current, 4);
    let mut r = state([4, 0, 2, 2, 0, 0, 0, 0, 0, 0, 0, 0, 0, 0, 0, 0]);
    r.shift_right();
    assert_eq!(&powers(&r)[0..4], &[0, 0, 4, 4]);
    assert_eq!(r.score_current, 4);
}
