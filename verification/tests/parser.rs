use game_of_life::parser::Error;
use game_of_life::parser::Pattern;
use game_of_life::parser::PatternCollection;

#[test]
fn test() {
    let input = "!Name: Glider
!Author: Richard K. Guy
!The smallest, most common, and first discovered spaceship.
!www.conwaylife.com/wiki/index.php?title=Glider
.O
..O
OOO";
    let pattern: Pattern = input.parse().unwrap();

    assert_eq!(pattern.name(), "Glider");
    assert_eq!(*pattern.cells(), vec![(0, 1), (1, 2), (2, 0), (2, 1), (2, 2)]);
}

#[test]
fn parse_header_comment_and_grid() {
    let pattern = Pattern::parse("!Name: Glider\n!comment\n.O\n..O\nOOO").unwrap();
    assert_eq!(pattern.name(), "Glider");
    assert_eq!(*pattern.cells(), vec![(0, 1), (1, 2), (2, 0), (2, 1), (2, 2)]);
}

#[test]
fn parse_without_header_fails() {
    assert_eq!(Pattern::parse(".O\nOOO").unwrap_err(), Error::ParseError);
    assert_eq!(Pattern::parse("").unwrap_err(), Error::ParseError);
}

#[test]
fn parse_without_separator_fails() {
    assert_eq!(Pattern::parse("!Name:Glider\nOOO").unwrap_err(), Error::ParseError);
}

#[test]
fn parse_skips_lines_before_header() {
    let pattern = Pattern::parse("junk\nmore junk\n!Name: Dot\nO").unwrap();
    assert_eq!(pattern.name(), "Dot");
    assert_eq!(*pattern.cells(), vec![(0, 0)]);
}

#[test]
fn parse_name_is_remainder_after_first_separator() {
    let pattern = Pattern::parse("!Name: A: B\nO").unwrap();
    assert_eq!(pattern.name(), "A: B");
}

#[test]
fn parse_empty_grid_gives_no_cells() {
    let pattern = Pattern::parse("!Name: Empty\n!only comments").unwrap();
    assert_eq!(pattern.name(), "Empty");
    assert_eq!(*pattern.cells(), Vec::<(u32, u32)>::new());
}

#[test]
fn parse_crlf_line_endings() {
    let pattern = Pattern::parse("!Name: Dot\r\n!c\r\n.O\r\n").unwrap();
    assert_eq!(pattern.name(), "Dot");
    assert_eq!(*pattern.cells(), vec![(0, 1)]);
}

#[test]
fn rotate_zero_and_four_are_identity() {
    let pattern = Pattern::parse("!Name: Glider\n.O\n..O\nOOO").unwrap();
    let original = pattern.cells().clone();
    assert_eq!(pattern.rotate(0), original);
    assert_eq!(pattern.rotate(4), original);
}

#[test]
fn rotate_one_quarter_turn_exact() {
    // offsets (r, c) map to (c, max_row - r); the glider's max row is 2
    let pattern = Pattern::parse("!Name: Glider\n.O\n..O\nOOO").unwrap();
    assert_eq!(pattern.rotate(1), vec![(1, 2), (2, 1), (0, 0), (1, 0), (2, 0)]);
}

#[test]
fn rotate_two_quarter_turns_exact() {
    // offsets (r, c) map to (max_row - r, max_col - c)
    let pattern = Pattern::parse("!Name: Glider\n.O\n..O\nOOO").unwrap();
    assert_eq!(pattern.rotate(2), vec![(2, 1), (1, 0), (0, 2), (0, 1), (0, 0)]);
}

#[test]
fn rotate_four_single_turns_return_to_start() {
    let input = "!Name: Glider\n.O\n..O\nOOO";
    let pattern: Pattern = input.parse().unwrap();
    let mut cells = pattern.rotate(0);
    for _ in 0..4 {
        let step = Pattern::parse(&rebuild(&pattern.name(), &cells)).unwrap();
        cells = step.rotate(1);
    }
    // back to the original coordinate set
    let mut got = cells;
    got.sort();
    let mut want = pattern.cells().clone();
    want.sort();
    assert_eq!(got, want);
}

/// Renders offsets back to pattern text, so a rotation result can be
/// parsed again and rotated once more.
fn rebuild(name: &str, cells: &[(u32, u32)]) -> String {
    let max_r = cells.iter().map(|p| p.0).max().unwrap_or(0) as usize;
    let max_c = cells.iter().map(|p| p.1).max().unwrap_or(0) as usize;
    let mut grid = vec![vec!['.'; max_c + 1]; max_r + 1];
    for (r, c) in cells {
        grid[*r as usize][*c as usize] = 'O';
    }
    let mut out = format!("!Name: {}", name);
    for row in grid {
        out.push('\n');
        for ch in row {
            out.push(ch);
        }
    }
    out
}

#[test]
fn registry_upsert_returns_previous_and_get_returns_newest() {
    let first = Pattern::parse("!Name: X\nO").unwrap();
    let second = Pattern::parse("!Name: X\n.O").unwrap();
    let mut registry = PatternCollection::new();

    assert!(registry.insert(first).is_none());
    let replaced = registry.insert(second).unwrap();
    assert_eq!(replaced.name(), "X");
    assert_eq!(*replaced.cells(), vec![(0, 0)]);

    let current = registry.get(&"X".to_string()).unwrap();
    assert_eq!(current.name(), "X");
    assert_eq!(*current.cells(), vec![(0, 1)]);
}

#[test]
fn registry_get_unknown_name_is_none() {
    let mut registry = PatternCollection::new();
    assert!(registry.get(&"X".to_string()).is_none());
    registry.insert(Pattern::parse("!Name: X\nO").unwrap());
    assert!(registry.get(&"Y".to_string()).is_none());
    // lookup is exact: no trimming, no case folding
    assert!(registry.get(&"x".to_string()).is_none());
    assert!(registry.get(&" X".to_string()).is_none());
}
