use sand_dropper::grid::Cell;
use sand_dropper::parse::{floor_cave, parse_cave, CaveError};

#[test]
fn horizontal_segment_marks_every_cell_between_endpoints() {
    let g = parse_cave(b"1,1 -> 3,1", (4, 5), (0, 0), 0).unwrap();
    assert_eq!(g.height(), 4);
    assert_eq!(g.width(), 5);
    assert_eq!(g.at(1, 1), Cell::Rock);
    assert_eq!(g.at(1, 2), Cell::Rock);
    assert_eq!(g.at(1, 3), Cell::Rock);
    // and no other cell is rock
    for r in 0..4 {
        for c in 0..5 {
            if r == 1 && (1..=3).contains(&c) {
                continue;
            }
            assert_ne!(g.at(r, c), Cell::Rock, "unexpected rock at ({}, {})", r, c);
        }
    }
    assert_eq!(g.at(0, 0), Cell::Source);
}

#[test]
fn vertical_segment_marks_every_cell_between_endpoints() {
    let g = parse_cave(b"2,0 -> 2,2", (4, 4), (0, 3), 0).unwrap();
    assert_eq!(g.at(0, 2), Cell::Rock);
    assert_eq!(g.at(1, 2), Cell::Rock);
    assert_eq!(g.at(2, 2), Cell::Rock);
    assert_eq!(g.at(3, 2), Cell::Empty);
    assert_eq!(g.at(3, 0), Cell::Source);
}

#[test]
fn endpoint_order_does_not_matter() {
    let a = parse_cave(b"3,1 -> 1,1", (4, 5), (0, 0), 0).unwrap();
    for c in 1..=3 {
        assert_eq!(a.at(1, c), Cell::Rock);
    }
}

#[test]
fn offset_translates_columns() {
    let g = parse_cave(b"500,1 -> 502,1", (3, 10), (501, 0), -498).unwrap();
    assert_eq!(g.at(1, 2), Cell::Rock);
    assert_eq!(g.at(1, 3), Cell::Rock);
    assert_eq!(g.at(1, 4), Cell::Rock);
    assert_eq!(g.at(0, 3), Cell::Source);
}

#[test]
fn several_lines_and_trailing_newline_are_accepted() {
    let g = parse_cave(b"0,0 -> 1,0\n0,2 -> 1,2\n", (4, 4), (3, 3), 0).unwrap();
    assert_eq!(g.at(0, 0), Cell::Rock);
    assert_eq!(g.at(0, 1), Cell::Rock);
    assert_eq!(g.at(2, 0), Cell::Rock);
    assert_eq!(g.at(2, 1), Cell::Rock);
}

#[test]
fn empty_input_gives_a_bare_grid() {
    let g = parse_cave(b"", (3, 3), (1, 1), 0).unwrap();
    for r in 0..3 {
        for c in 0..3 {
            let want = if r == 1 && c == 1 { Cell::Source } else { Cell::Empty };
            assert_eq!(g.at(r, c), want);
        }
    }
}

#[test]
fn rock_overwrites_the_source_marker() {
    let g = parse_cave(b"0,0 -> 1,0", (2, 2), (0, 0), 0).unwrap();
    assert_eq!(g.at(0, 0), Cell::Rock);
}

#[test]
fn non_numeric_text_is_malformed() {
    assert!(matches!(parse_cave(b"abc", (4, 4), (0, 0), 0), Err(CaveError::Malformed)));
}

#[test]
fn dangling_vertex_is_malformed() {
    assert!(matches!(parse_cave(b"1,2 -> 3", (9, 9), (0, 0), 0), Err(CaveError::Malformed)));
    assert!(matches!(parse_cave(b"1,2 ->", (9, 9), (0, 0), 0), Err(CaveError::Malformed)));
}

#[test]
fn empty_line_is_malformed() {
    assert!(matches!(parse_cave(b"\n", (4, 4), (0, 0), 0), Err(CaveError::Malformed)));
    assert!(matches!(parse_cave(b"1,2\n\n", (9, 9), (0, 0), 0), Err(CaveError::Malformed)));
}

#[test]
fn coordinate_too_large_for_native_space_is_malformed() {
    assert!(matches!(parse_cave(b"2147483648,0", (4, 4), (0, 0), 0), Err(CaveError::Malformed)));
    assert!(matches!(parse_cave(b"12345678901,0", (4, 4), (0, 0), 0), Err(CaveError::Malformed)));
}

#[test]
fn largest_native_coordinate_is_out_of_bounds_not_malformed() {
    assert!(matches!(parse_cave(b"2147483647,0", (4, 4), (0, 0), 0), Err(CaveError::OutOfBounds)));
}

#[test]
fn vertex_outside_grid_is_out_of_bounds() {
    assert!(matches!(parse_cave(b"7,0", (4, 4), (0, 0), 0), Err(CaveError::OutOfBounds)));
}

#[test]
fn negative_column_after_offset_is_out_of_bounds() {
    assert!(matches!(parse_cave(b"1,1", (4, 4), (0, 0), -5), Err(CaveError::OutOfBounds)));
}

#[test]
fn source_outside_grid_is_out_of_bounds() {
    assert!(matches!(parse_cave(b"1,1", (4, 4), (10, 0), 0), Err(CaveError::OutOfBounds)));
    assert!(matches!(parse_cave(b"1,1", (4, 4), (0, -1), 0), Err(CaveError::OutOfBounds)));
}

#[test]
fn diagonal_segment_is_rejected() {
    assert!(matches!(parse_cave(b"0,0 -> 2,2", (8, 8), (5, 5), 0), Err(CaveError::Diagonal)));
}

#[test]
fn bounds_are_checked_before_alignment() {
    assert!(matches!(parse_cave(b"0,0 -> 9,9", (4, 4), (0, 0), 0), Err(CaveError::OutOfBounds)));
}

#[test]
fn floor_is_one_unbroken_rock_row_two_below_the_lowest_rock() {
    let mut g = parse_cave(b"2,2 -> 3,2", (6, 6), (1, 0), 0).unwrap();
    let (pad, lowest) = floor_cave(&mut g).unwrap();
    assert_eq!(lowest, 2);
    assert_eq!(pad, 2);
    assert_eq!(g.height(), 5);
    assert_eq!(g.width(), 10);
    // the lowest row is entirely rock
    for c in 0..10 {
        assert_eq!(g.at(4, c), Cell::Rock);
    }
    // the original rock reappears shifted right by the padding, and no
    // original rock lies at or below the floor row
    assert_eq!(g.at(2, 4), Cell::Rock);
    assert_eq!(g.at(2, 5), Cell::Rock);
    for r in 0..4 {
        for c in 0..10 {
            if r == 2 && (c == 4 || c == 5) {
                continue;
            }
            assert_ne!(g.at(r, c), Cell::Rock, "unexpected rock at ({}, {})", r, c);
        }
    }
    // the source marker's column is still valid after the width padding
    assert_eq!(g.at(0, 3), Cell::Source);
}

#[test]
fn wide_grid_needs_no_padding() {
    let mut g = parse_cave(b"1,1 -> 2,1", (4, 30), (0, 0), 0).unwrap();
    let (pad, lowest) = floor_cave(&mut g).unwrap();
    assert_eq!(lowest, 1);
    assert_eq!(pad, 0);
    assert_eq!(g.height(), 4);
    assert_eq!(g.width(), 30);
    for c in 0..30 {
        assert_eq!(g.at(3, c), Cell::Rock);
    }
}

#[test]
fn floor_synthesis_without_rock_fails() {
    let mut g = parse_cave(b"", (4, 4), (0, 0), 0).unwrap();
    assert_eq!(floor_cave(&mut g), Err(CaveError::NoRock));
}
