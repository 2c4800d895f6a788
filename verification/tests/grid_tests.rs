use ya_advent_lib::grid::{Grid, GridTransform};

fn fill(grid: &mut Grid<u32>) {
    let mut c = 0u32;
    for y in grid.y_bounds() {
        for x in grid.x_bounds() {
            grid.set(x, y, c);
            c += 1;
        }
    }
}

#[test]
fn test_extract() {
    let mut grid: Grid<u32> = Grid::new(-2, -2, 7, 7, 0);
    fill(&mut grid);
    let grid2 = grid.extract(-1, -1, 3, 3);
    assert_eq!(grid2.data(), &vec![11, 12, 13, 21, 22, 23, 31, 32, 33]);
}

#[test]
fn test_tiling() {
    let mut grid: Grid<u32> = Grid::new(-2, -2, 1, 1, 0);
    fill(&mut grid);
    let tiles: Vec<Grid<u32>> = grid.tile_split(2, 2);
    assert_eq!(tiles[0].data(), &vec![0, 1, 4, 5]);
    assert_eq!(tiles[1].data(), &vec![2, 3, 6, 7]);
    assert_eq!(tiles[2].data(), &vec![8, 9, 12, 13]);
    assert_eq!(tiles[3].data(), &vec![10, 11, 14, 15]);
    let grid2 = Grid::from_tiles(&tiles, 2, 2);
    assert_eq!(grid.data(), grid2.data());
}

#[test]
fn test_h_flip() {
    let mut grid: Grid<u32> = Grid::new(-2, -2, 7, 6, 0);
    fill(&mut grid);
    let grid2 = grid.h_flip();
    grid.h_flip_inplace();
    assert_eq!(grid.get(-2, -2), 9);
    assert_eq!(grid.get(-2, 0), 29);
    assert_eq!(grid.get(7, 6), 80);
    assert_eq!(grid.get(5, 6), 82);
    assert_eq!(grid.data(), grid2.data());
}

#[test]
fn test_v_flip() {
    let mut grid: Grid<u32> = Grid::new(-2, -2, 7, 6, 0);
    fill(&mut grid);
    let grid2 = grid.v_flip();
    grid.v_flip_inplace();
    assert_eq!(grid.get(-2, -2), 80);
    assert_eq!(grid.get(-2, 0), 60);
    assert_eq!(grid.get(7, 6), 9);
    assert_eq!(grid.get(5, 6), 7);
    assert_eq!(grid.data(), grid2.data());
}

#[test]
fn test_rot180() {
    let mut grid: Grid<u32> = Grid::new(-2, -2, 7, 6, 0);
    fill(&mut grid);
    let grid2 = grid.rot180();
    grid.rot180_inplace();
    assert_eq!(grid.get(-2, -2), 89);
    assert_eq!(grid.get(-2, 0), 69);
    assert_eq!(grid.get(7, 6), 0);
    assert_eq!(grid.get(5, 6), 2);
    assert_eq!(grid.data(), grid2.data());

    let mut grid: Grid<u32> = Grid::new(-2, -2, 6, 7, 0);
    fill(&mut grid);
    let grid2 = grid.rot180();
    grid.rot180_inplace();
    assert_eq!(grid.get(-2, -2), 89);
    assert_eq!(grid.get(-2, 0), 71);
    assert_eq!(grid.get(6, 7), 0);
    assert_eq!(grid.get(4, 7), 2);
    assert_eq!(grid.data(), grid2.data());
}

#[test]
fn test_rot90() {
    let mut grid: Grid<u32> = Grid::new(-2, -2, 7, 6, 0);
    fill(&mut grid);
    let grid = grid.rot90();
    assert_eq!(grid.get(-2, -2), 80);
    assert_eq!(grid.get(-2, 0), 82);
    assert_eq!(grid.get(6, 7), 9);
    assert_eq!(grid.get(5, 7), 19);
    assert_eq!(grid.get(5, -1), 11);
}

#[test]
fn test_roll_row() {
    let mut grid: Grid<u32> = Grid::new(-2, -2, 2, 2, 0);
    fill(&mut grid);
    grid.roll_row(1, 3);

    assert_eq!(
        grid.data(),
        &vec![0, 1, 2, 3, 4, 5, 6, 7, 8, 9, 10, 11, 12, 13, 14, 17, 18, 19, 15, 16, 20, 21, 22, 23, 24]
    );

    let mut grid: Grid<u32> = Grid::new(-2, -2, 2, 2, 0);
    fill(&mut grid);
    grid.roll_row(1, -1);

    assert_eq!(
        grid.data(),
        &vec![0, 1, 2, 3, 4, 5, 6, 7, 8, 9, 10, 11, 12, 13, 14, 16, 17, 18, 19, 15, 20, 21, 22, 23, 24]
    );
}

#[test]
fn test_roll_col() {
    let mut grid: Grid<u32> = Grid::new(-2, -2, 2, 2, 0);
    fill(&mut grid);
    grid.roll_col(1, 3);

    assert_eq!(
        grid.data(),
        &vec![0, 1, 2, 13, 4, 5, 6, 7, 18, 9, 10, 11, 12, 23, 14, 15, 16, 17, 3, 19, 20, 21, 22, 8, 24]
    );

    let mut grid: Grid<u32> = Grid::new(-2, -2, 2, 2, 0);
    fill(&mut grid);
    grid.roll_col(1, -1);

    assert_eq!(
        grid.data(),
        &vec![0, 1, 2, 8, 4, 5, 6, 7, 13, 9, 10, 11, 12, 18, 14, 15, 16, 17, 23, 19, 20, 21, 22, 3, 24]
    );
}

#[test]
fn test_xform() {
    let mut grid: Grid<u32> = Grid::new(-2, -2, 2, 3, 0);
    fill(&mut grid);

    let grid2 = grid.rot90();
    for y in grid2.y_bounds() {
        for x in grid2.x_bounds() {
            assert_eq!(grid.get_xform(x, y, GridTransform::Rot90), grid2.get(x, y));
        }
    }
    let grid2 = grid.rot180();
    for y in grid2.y_bounds() {
        for x in grid2.x_bounds() {
            assert_eq!(grid.get_xform(x, y, GridTransform::Rot180), grid2.get(x, y));
        }
    }
    let grid2 = grid.h_flip();
    for y in grid2.y_bounds() {
        for x in grid2.x_bounds() {
            assert_eq!(grid.get_xform(x, y, GridTransform::HFlip), grid2.get(x, y));
        }
    }
    let grid2 = grid.v_flip();
    for y in grid2.y_bounds() {
        for x in grid2.x_bounds() {
            assert_eq!(grid.get_xform(x, y, GridTransform::VFlip), grid2.get(x, y));
        }
    }
}

#[test]
fn grid_accessors_and_defaults() {
    let mut grid: Grid<u32> = Grid::new(0, 0, 2, 2, 7);
    assert_eq!(grid.get_or_default(5, 5, 42), 42);
    assert_eq!(grid.get_or_default(1, 1, 42), 7);
    grid.set(1, 1, 9);
    assert_eq!(grid.get(1, 1), 9);
    assert!(grid.contains_coord((1i64, 1i64)));
    assert!(!grid.contains_coord((3i64, 0i64)));
    assert_eq!(grid.x_bounds(), 0..3);
    assert_eq!(grid.y_bounds_orig(), 0..3);
    let found = grid.find(|v, _, _| v == 9);
    assert_eq!(found, Some((1, 1)));
    assert_eq!(grid.find(|v, _, _| v == 1000), None);
    let rows = grid.rows();
    assert_eq!(rows.len(), 3);
    assert_eq!(rows[1], vec![7, 9, 7]);
    let cols = grid.cols();
    assert_eq!(cols[1], vec![7, 9, 7]);
    let cw = grid.iter_with_coord();
    assert_eq!(cw[4], (9, 1, 1));
    assert_eq!(grid.clone_without_data(0).data(), &vec![0; 9]);
}

#[test]
fn grid_from_input_maps_characters() {
    let lines: Vec<String> = vec!["#.".to_string(), ".#".to_string()];
    let grid: Grid<bool> = Grid::from_input_map(&lines, false, 1, |c: char| c == '#');
    assert_eq!(grid.x_bounds(), -1..3);
    assert_eq!(grid.y_bounds(), -1..3);
    assert_eq!(grid.y_bounds_orig(), 0..2);
    assert!(grid.get(0, 0));
    assert!(!grid.get(1, 0));
    assert!(grid.get(1, 1));
    assert!(!grid.get(-1, -1));

    let grid2: Grid<char> = Grid::from_input(&lines, ' ', 0);
    assert_eq!(grid2.get(0, 0), '#');
    assert_eq!(grid2.get(1, 0), '.');
}

#[test]
fn grid_formats_rows_with_newlines() {
    let mut grid: Grid<char> = Grid::new(0, 0, 1, 1, '.');
    grid.set(1, 0, '#');
    assert_eq!(grid.format(), ".#\n..\n");
    assert_eq!(grid.format_str(|c: char| format!("{c}{c}")), "..##\n....\n");
}

#[test]
fn grid_try_from_input_reports_bad_characters() {
    #[derive(Clone, Copy, PartialEq, Debug)]
    enum Cell {
        Wall,
        Empty,
    }
    impl TryFrom<char> for Cell {
        type Error = char;
        fn try_from(c: char) -> Result<Cell, char> {
            match c {
                '#' => Ok(Cell::Wall),
                '.' => Ok(Cell::Empty),
                other => Err(other),
            }
        }
    }
    let good: Vec<String> = vec!["#.".to_string(), ".#".to_string()];
    let grid = Grid::try_from_input(&good, Cell::Empty, 0).unwrap();
    assert_eq!(grid.get(0, 0), Cell::Wall);
    assert_eq!(grid.get(1, 0), Cell::Empty);
    let bad: Vec<String> = vec!["#x".to_string()];
    let err = Grid::try_from_input(&bad, Cell::Empty, 0).err();
    assert_eq!(err, Some('x'));
}
