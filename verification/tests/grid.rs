use game_of_life::Universe;

fn live_cells(u: &Universe) -> Vec<(u32, u32)> {
    let mut out = Vec::new();
    for r in 0..u.height() {
        for c in 0..u.width() {
            if u.contains(r, c) {
                out.push((r, c));
            }
        }
    }
    out
}

#[test]
fn new_grid_is_all_dead() {
    let u = Universe::new(4, 3);
    assert_eq!(u.width(), 4);
    assert_eq!(u.height(), 3);
    assert!(!u.wrapping());
    assert!(live_cells(&u).is_empty());
}

#[test]
fn dead_grid_stays_dead_after_update() {
    let mut u = Universe::new(5, 5);
    u.update();
    assert!(live_cells(&u).is_empty());
    u.set_wrapping(true);
    u.update();
    assert!(live_cells(&u).is_empty());
}

#[test]
fn block_is_a_still_life_on_bounded_grid() {
    // a 2x2 block on a 3x3 bounded grid: each live cell has exactly 3
    // live neighbors, so it survives every generation unchanged
    let mut u = Universe::new(3, 3);
    u.toggle_cell(0, 0);
    u.toggle_cell(0, 1);
    u.toggle_cell(1, 0);
    u.toggle_cell(1, 1);
    let before = live_cells(&u);
    for _ in 0..3 {
        u.update();
        assert_eq!(live_cells(&u), before);
    }
}

#[test]
fn blinker_oscillates_with_period_two_on_wrapping_grid() {
    let mut u = Universe::new(8, 8);
    u.set_wrapping(true);
    u.toggle_cell(3, 2);
    u.toggle_cell(3, 3);
    u.toggle_cell(3, 4);
    let start = live_cells(&u);
    u.update();
    assert_ne!(live_cells(&u), start);
    assert_eq!(live_cells(&u), vec![(2, 3), (3, 3), (4, 3)]);
    u.update();
    assert_eq!(live_cells(&u), start);
}

#[test]
fn toggle_cell_flips_only_that_cell() {
    let mut u = Universe::new(3, 3);
    u.toggle_cell(1, 2);
    assert!(u.contains(1, 2));
    assert_eq!(live_cells(&u), vec![(1, 2)]);
    u.toggle_cell(1, 2);
    assert!(live_cells(&u).is_empty());
}

#[test]
fn clear_kills_every_cell() {
    let mut u = Universe::new(4, 4);
    u.toggle_cell(0, 0);
    u.toggle_cell(3, 3);
    u.clear();
    assert!(live_cells(&u).is_empty());
}

#[test]
fn randomize_copies_the_supplied_states() {
    let mut u = Universe::new(2, 2);
    u.randomize(&vec![true, false, false, true]);
    assert_eq!(live_cells(&u), vec![(0, 0), (1, 1)]);
    u.randomize(&vec![false, true, true, false]);
    assert_eq!(live_cells(&u), vec![(0, 1), (1, 0)]);
}

#[test]
fn get_index_is_row_major() {
    let u = Universe::new(7, 5);
    assert_eq!(u.get_index(0, 0), 0);
    assert_eq!(u.get_index(0, 6), 6);
    assert_eq!(u.get_index(1, 0), 7);
    assert_eq!(u.get_index(4, 6), 34);
}

#[test]
fn put_pattern_drops_offsets_past_bounded_edge() {
    let mut u = Universe::new(3, 3);
    u.insert_pattern("!Name: Row\nOOOOO".to_string()).unwrap();
    u.put_pattern(2, 1, "Row".to_string(), 0);
    // offsets (0,0)..(0,4) anchored at (2,1): columns 1 and 2 fit, the
    // rest fall past the edge and are silently dropped
    assert_eq!(live_cells(&u), vec![(2, 1), (2, 2)]);
}

#[test]
fn put_pattern_wraps_on_wrapping_grid() {
    let mut u = Universe::new(3, 3);
    u.set_wrapping(true);
    u.insert_pattern("!Name: Row\nOOOOO".to_string()).unwrap();
    u.put_pattern(2, 1, "Row".to_string(), 0);
    // five cells anchored at column 1 wrap around a width of 3 and
    // cover the whole bottom row
    assert_eq!(live_cells(&u), vec![(2, 0), (2, 1), (2, 2)]);
}

#[test]
fn put_pattern_with_unknown_name_is_a_no_op() {
    let mut u = Universe::new(3, 3);
    u.put_pattern(0, 0, "Missing".to_string(), 0);
    assert!(live_cells(&u).is_empty());
}

#[test]
fn put_pattern_applies_rotation() {
    let mut u = Universe::new(4, 4);
    u.insert_pattern("!Name: L\nO.\nOO".to_string()).unwrap();
    // offsets (0,0),(1,0),(1,1); one quarter-turn about max row 1 gives
    // (0,1),(0,0),(1,0)
    u.put_pattern(0, 0, "L".to_string(), 1);
    assert_eq!(live_cells(&u), vec![(0, 0), (0, 1), (1, 0)]);
}

#[test]
fn insert_pattern_returns_the_parsed_name() {
    let mut u = Universe::new(3, 3);
    let name = u.insert_pattern("!Name: Glider\n.O\n..O\nOOO".to_string()).unwrap();
    assert_eq!(name, "Glider");
}

#[test]
fn insert_pattern_rejects_bad_text() {
    let mut u = Universe::new(3, 3);
    assert!(u.insert_pattern("no header here".to_string()).is_err());
}

#[test]
fn pattern_cells_reads_back_rotated_offsets() {
    let mut u = Universe::new(8, 8);
    u.insert_pattern("!Name: Glider\n.O\n..O\nOOO".to_string()).unwrap();
    let cs = u.pattern_cells(&"Glider".to_string(), 0).unwrap();
    assert_eq!(cs, vec![(0, 1), (1, 2), (2, 0), (2, 1), (2, 2)]);
    let turned = u.pattern_cells(&"Glider".to_string(), 1).unwrap();
    assert_eq!(turned, vec![(1, 2), (2, 1), (0, 0), (1, 0), (2, 0)]);
    assert!(u.pattern_cells(&"Missing".to_string(), 0).is_none());
}

#[test]
fn wrapping_flag_changes_neighbor_policy_at_the_edge() {
    // a horizontal blinker against the top edge: bounded, it dies out
    // differently than wrapping, where rows wrap around
    let mut bounded = Universe::new(5, 5);
    bounded.toggle_cell(0, 1);
    bounded.toggle_cell(0, 2);
    bounded.toggle_cell(0, 3);
    bounded.update();
    assert_eq!(live_cells(&bounded), vec![(0, 2), (1, 2)]);

    let mut wrapping = Universe::new(5, 5);
    wrapping.set_wrapping(true);
    wrapping.toggle_cell(0, 1);
    wrapping.toggle_cell(0, 2);
    wrapping.toggle_cell(0, 3);
    wrapping.update();
    assert_eq!(live_cells(&wrapping), vec![(0, 2), (1, 2), (4, 2)]);
}
