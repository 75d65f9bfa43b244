use labyrinth::grid::{Cell, Direction, Graph, GridError};
use labyrinth::path::construct_path;

fn rows(lines: &[&str]) -> Vec<Vec<u8>> {
    lines.iter().map(|l| l.as_bytes().to_vec()).collect()
}

fn build(lines: &[&str]) -> Graph {
    let n = lines.len();
    let m = lines[0].len();
    match Graph::from_grid(n, m, rows(lines)) {
        Ok(g) => g,
        Err(e) => panic!("grid refused: {:?}", e),
    }
}

fn letters(p: &[Direction]) -> String {
    p.iter()
        .map(|d| match d {
            Direction::U => 'U',
            Direction::D => 'D',
            Direction::L => 'L',
            Direction::R => 'R',
        })
        .collect()
}

/// Applies the moves from the start, checking each square on the way.
fn walk_ends(g: &Graph, p: &[Direction]) -> (usize, usize) {
    let (mut i, mut j) = (g.start.0 as i64, g.start.1 as i64);
    for d in p {
        match d {
            Direction::U => i -= 1,
            Direction::D => i += 1,
            Direction::L => j -= 1,
            Direction::R => j += 1,
        }
        assert!(i >= 0 && j >= 0 && (i as usize) < g.n && (j as usize) < g.m);
        assert!(g.grid[i as usize][j as usize] != Cell::Wall);
    }
    (i as usize, j as usize)
}

#[test]
fn adjacent_end_is_one_move_right() {
    let g = build(&["AB"]);
    let p = g.reach().unwrap();
    assert_eq!(p.len(), 1);
    assert_eq!(letters(&p), "R");
}

#[test]
fn walled_off_end_gives_none() {
    let g = build(&["A.#", ".##", ".#B"]);
    assert_eq!(g.reach(), None);
}

#[test]
fn start_equal_to_end_gives_empty_path() {
    let g = Graph { grid: vec![vec![Cell::Start]], m: 1, n: 1, start: (0, 0), end: (0, 0) };
    assert_eq!(g.reach(), Some(vec![]));
}

#[test]
fn open_three_by_three_takes_four_moves() {
    let g = build(&["A..", "...", "..B"]);
    let p = g.reach().unwrap();
    assert_eq!(p.len(), 4);
    assert_eq!(letters(&p), "DDRR");
    assert_eq!(walk_ends(&g, &p), g.end);
}

#[test]
fn reach_twice_gives_same_path() {
    let g = build(&["A.#..", "...#.", "#.#..", "...#B", ".#..."]);
    let first = g.reach();
    let second = g.reach();
    assert!(first.is_some());
    assert_eq!(first, second);
}

#[test]
fn route_stays_on_open_squares_and_ends_at_end() {
    let g = build(&["A.#...", ".##.#.", "....#B", "##.#..", "......"]);
    let p = g.reach().unwrap();
    assert_eq!(walk_ends(&g, &p), g.end);
}

#[test]
fn route_length_is_shortest_around_a_wall() {
    // The wall in the middle column forces a detour through the bottom row.
    let g = build(&["A#B", ".#.", "..."]);
    let p = g.reach().unwrap();
    assert_eq!(letters(&p), "DDRRUU");
    assert_eq!(walk_ends(&g, &p), g.end);
}

#[test]
fn end_in_a_walled_corner_is_unreachable() {
    let g = build(&["A...", "..##", "..#B"]);
    assert_eq!(g.reach(), None);
}

#[test]
fn first_start_and_end_in_row_major_order_win() {
    let g = build(&[".A.A", "B..B"]);
    assert_eq!(g.start, (0, 1));
    assert_eq!(g.end, (1, 0));
    assert_eq!(letters(&g.reach().unwrap()), "DL");
}

#[test]
fn lower_case_letters_are_start_and_end() {
    let g = build(&["a.b"]);
    assert_eq!(g.grid[0], vec![Cell::Start, Cell::Floor, Cell::End]);
    assert_eq!(letters(&g.reach().unwrap()), "RR");
}

#[test]
fn ragged_rows_are_refused() {
    let r = Graph::from_grid(2, 3, rows(&["A..", ".B"]));
    assert_eq!(r.err(), Some(GridError::BadShape));
}

#[test]
fn wrong_row_count_is_refused() {
    let r = Graph::from_grid(3, 2, rows(&["AB", ".."]));
    assert_eq!(r.err(), Some(GridError::BadShape));
}

#[test]
fn empty_grid_is_refused() {
    let r = Graph::from_grid(0, 0, vec![]);
    assert_eq!(r.err(), Some(GridError::BadShape));
}

#[test]
fn unknown_symbol_is_refused() {
    let r = Graph::from_grid(1, 3, rows(&["A?B"]));
    assert_eq!(r.err(), Some(GridError::BadSymbol));
}

#[test]
fn missing_start_is_refused() {
    let r = Graph::from_grid(1, 2, rows(&[".B"]));
    assert_eq!(r.err(), Some(GridError::NoStart));
}

#[test]
fn missing_end_is_refused() {
    let r = Graph::from_grid(1, 1, rows(&["A"]));
    assert_eq!(r.err(), Some(GridError::NoEnd));
}

#[test]
fn neighbours_come_up_down_left_right_without_walls() {
    let g = build(&["A.#", "..B", "#.."]);
    let e = g.has_edges(1, 1);
    assert_eq!(
        e,
        vec![
            (0, 1, Direction::U, 1, 1),
            (2, 1, Direction::D, 1, 1),
            (1, 0, Direction::L, 1, 1),
            (1, 2, Direction::R, 1, 1),
        ]
    );
    assert_eq!(g.has_edges(0, 1), vec![(1, 1, Direction::D, 0, 1), (0, 0, Direction::L, 0, 1)]);
    assert_eq!(g.has_edges(2, 2), vec![(1, 2, Direction::U, 2, 2), (2, 1, Direction::L, 2, 2)]);
}

#[test]
fn path_is_rebuilt_from_links_earliest_first() {
    let parents = vec![
        vec![None, Some((Direction::R, 0, 0))],
        vec![None, Some((Direction::D, 0, 1))],
    ];
    let mut v = vec![Direction::U];
    construct_path(&parents, (1, 1), &mut v);
    assert_eq!(v, vec![Direction::U, Direction::R, Direction::D]);
    let mut w = Vec::new();
    construct_path(&parents, (0, 0), &mut w);
    assert!(w.is_empty());
}

#[test]
fn find_gives_first_square_of_a_kind() {
    let g = build(&["..#", "#A.", "A.B"]);
    assert_eq!(g.find(Cell::Start), Some((1, 1)));
    assert_eq!(g.find(Cell::Wall), Some((0, 2)));
}

#[test]
fn ties_go_to_down_before_right() {
    let g = build(&["A.", ".B"]);
    assert_eq!(letters(&g.reach().unwrap()), "DR");
}

#[test]
fn ties_go_to_up_before_left() {
    let g = build(&["B.", ".A"]);
    assert_eq!(letters(&g.reach().unwrap()), "UL");
}

#[test]
fn getters_report_the_grid() {
    let g = build(&["#A.", "..B"]);
    assert_eq!(g.dimensions(), (2, 3));
    assert_eq!(g.start_coordinate(), (0, 1));
    assert_eq!(g.end_coordinate(), (1, 2));
    assert_eq!(g.cell_at(0, 0), Some(Cell::Wall));
    assert_eq!(g.cell_at(1, 2), Some(Cell::End));
    assert_eq!(g.cell_at(2, 0), None);
    assert_eq!(g.cell_at(0, 3), None);
}
