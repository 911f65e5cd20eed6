use fox_puzzle::board::Board;
use fox_puzzle::board::Direction;
use fox_puzzle::board::Pawn;
use fox_puzzle::board::Tile;
use fox_puzzle::board::TileType;
use fox_puzzle::solver::Solver;
use fox_puzzle::solver::start_solver;

const UP: u8 = 1;
const DOWN: u8 = 2;
const LEFT: u8 = 4;
const RIGHT: u8 = 8;

fn tile(tile_type: TileType, pawn: Option<Pawn>, edges: u8, x: usize, y: usize) -> Tile {
    Tile { tile_type, pawn, edges, x, y }
}

fn pawn_at(board: &Board, x: usize, y: usize) -> Option<Pawn> {
    for t in &board.tiles {
        if t.x == x && t.y == y {
            return t.pawn;
        }
    }
    None
}

/// The worked scenario: a 3-by-1 corridor where one push slides the Fox from
/// the left end across the middle onto the goal at the right end.
#[test]
fn corridor_one_push_solves() {
    let board = Board::new(
        3,
        1,
        vec![
            tile(TileType::Empty, Some(Pawn::Fox), RIGHT, 0, 0),
            tile(TileType::Empty, None, LEFT | RIGHT, 1, 0),
            tile(TileType::Goal, None, LEFT, 2, 0),
        ],
    );
    let solution = start_solver(board).expect("a one-push solution exists");
    assert_eq!(solution.width, 3);
    assert_eq!(solution.height, 1);
    // The seed waypoint, the pre-move waypoint with its descriptor, and the
    // solved board.
    assert_eq!(solution.steps.len(), 3);
    assert_eq!(solution.steps[0].pawn_at_move_to, None);
    assert_eq!(solution.steps[1].pawn_at_move_to, Some((0, 0, RIGHT)));
    assert_eq!(solution.steps[2].pawn_at_move_to, None);
    assert_eq!(pawn_at(&solution.steps[1].board, 0, 0), Some(Pawn::Fox));
    let last = &solution.steps[2].board;
    assert!(last.is_solved());
    assert_eq!(pawn_at(last, 2, 0), Some(Pawn::Fox));
    assert_eq!(pawn_at(last, 0, 0), None);
    assert_eq!(pawn_at(last, 1, 0), None);
}

/// A slide crosses every free cell and stops against a wall: never one cell
/// early, never inside the wall.
#[test]
fn slide_stops_at_wall() {
    let board = Board::new(
        4,
        1,
        vec![
            tile(TileType::Empty, Some(Pawn::Fox), RIGHT, 0, 0),
            tile(TileType::Empty, None, LEFT | RIGHT, 1, 0),
            tile(TileType::Empty, None, LEFT | RIGHT, 2, 0),
            tile(TileType::Wall, None, 0, 3, 0),
        ],
    );
    let steps = board.get_possible_steps();
    assert_eq!(steps.len(), 1);
    assert_eq!(steps[0].pawn_at, (0, 0));
    assert!(matches!(steps[0].direction, Direction::Right));
    assert_eq!(pawn_at(&steps[0].board, 2, 0), Some(Pawn::Fox));
    assert_eq!(pawn_at(&steps[0].board, 0, 0), None);
    assert_eq!(pawn_at(&steps[0].board, 1, 0), None);
    assert_eq!(pawn_at(&steps[0].board, 3, 0), None);
}

/// A slide stops on the cell before another pawn.
#[test]
fn slide_stops_before_pawn() {
    let board = Board::new(
        3,
        1,
        vec![
            tile(TileType::Empty, Some(Pawn::Fox), RIGHT, 0, 0),
            tile(TileType::Empty, None, LEFT | RIGHT, 1, 0),
            tile(TileType::Empty, Some(Pawn::Monster), 0, 2, 0),
        ],
    );
    let steps = board.get_possible_steps();
    assert_eq!(steps.len(), 1);
    assert_eq!(steps[0].pawn_at, (0, 0));
    assert_eq!(pawn_at(&steps[0].board, 1, 0), Some(Pawn::Fox));
    assert_eq!(pawn_at(&steps[0].board, 2, 0), Some(Pawn::Monster));
}

/// A slide stops at the grid edge.
#[test]
fn slide_stops_at_grid_edge() {
    let board = Board::new(
        2,
        1,
        vec![
            tile(TileType::Empty, Some(Pawn::Fox), RIGHT, 0, 0),
            tile(TileType::Empty, None, LEFT | RIGHT, 1, 0),
        ],
    );
    let steps = board.get_possible_steps();
    assert_eq!(steps.len(), 1);
    assert_eq!(pawn_at(&steps[0].board, 1, 0), Some(Pawn::Fox));
}

/// A pawn whose tile's exit mask forbids a direction contributes no entry
/// for it, even with free cells ahead.
#[test]
fn zero_move_exit_mask_forbids() {
    let board = Board::new(
        3,
        1,
        vec![
            tile(TileType::Empty, Some(Pawn::Fox), 0, 0, 0),
            tile(TileType::Empty, None, LEFT | RIGHT, 1, 0),
            tile(TileType::Empty, None, LEFT, 2, 0),
        ],
    );
    assert_eq!(board.get_possible_steps().len(), 0);
}

/// A pawn whose adjacent cell is a wall contributes no entry for that
/// direction.
#[test]
fn zero_move_adjacent_wall() {
    let board = Board::new(
        2,
        1,
        vec![
            tile(TileType::Empty, Some(Pawn::Fox), RIGHT, 0, 0),
            tile(TileType::Wall, None, 0, 1, 0),
        ],
    );
    assert_eq!(board.get_possible_steps().len(), 0);
}

/// A board with a Fox on every goal tile is solved.
#[test]
fn solved_fox_on_every_goal() {
    let board = Board::new(
        2,
        1,
        vec![
            tile(TileType::Goal, Some(Pawn::Fox), 0, 0, 0),
            tile(TileType::Empty, Some(Pawn::Monster), 0, 1, 0),
        ],
    );
    assert!(board.is_solved());
}

/// A board with an empty goal tile is not solved.
#[test]
fn unsolved_goal_empty() {
    let board = Board::new(
        2,
        1,
        vec![
            tile(TileType::Goal, None, 0, 0, 0),
            tile(TileType::Empty, Some(Pawn::Fox), 0, 1, 0),
        ],
    );
    assert!(!board.is_solved());
}

/// A board with a Monster on a goal tile is not solved.
#[test]
fn unsolved_goal_monster() {
    let board = Board::new(
        2,
        1,
        vec![
            tile(TileType::Goal, Some(Pawn::Monster), 0, 0, 0),
            tile(TileType::Empty, Some(Pawn::Fox), 0, 1, 0),
        ],
    );
    assert!(!board.is_solved());
}

/// A board without goal tiles is trivially solved.
#[test]
fn solved_no_goals() {
    let board = Board::new(
        2,
        1,
        vec![
            tile(TileType::Empty, Some(Pawn::Monster), 0, 0, 0),
            tile(TileType::Wall, None, 0, 1, 0),
        ],
    );
    assert!(board.is_solved());
}

/// Boards with identical pawn placements are the same search state whatever
/// their wall and goal layouts.
#[test]
fn same_state_ignores_layout() {
    let a = Board::new(
        2,
        1,
        vec![
            tile(TileType::Empty, Some(Pawn::Fox), RIGHT, 0, 0),
            tile(TileType::Goal, None, LEFT, 1, 0),
        ],
    );
    let b = Board::new(
        2,
        1,
        vec![
            tile(TileType::Goal, Some(Pawn::Fox), 0, 0, 0),
            tile(TileType::Wall, None, 0, 1, 0),
        ],
    );
    assert!(a.same_state(&b));
    assert!(b.same_state(&a));
}

/// Boards whose pawns sit at different coordinates are different states.
#[test]
fn same_state_detects_moved_pawn() {
    let a = Board::new(
        2,
        1,
        vec![
            tile(TileType::Empty, Some(Pawn::Fox), RIGHT, 0, 0),
            tile(TileType::Empty, None, LEFT, 1, 0),
        ],
    );
    let b = Board::new(
        2,
        1,
        vec![
            tile(TileType::Empty, None, RIGHT, 0, 0),
            tile(TileType::Empty, Some(Pawn::Fox), LEFT, 1, 0),
        ],
    );
    assert!(!a.same_state(&b));
    assert!(!b.same_state(&a));
}

/// A pawn's identity matters to state equality.
#[test]
fn same_state_detects_pawn_kind() {
    let a = Board::new(1, 1, vec![tile(TileType::Empty, Some(Pawn::Fox), 0, 0, 0)]);
    let b = Board::new(1, 1, vec![tile(TileType::Empty, Some(Pawn::Monster), 0, 0, 0)]);
    assert!(!a.same_state(&b));
}

/// Normalization fills every missing coordinate with a wall tile and is a
/// no-op on a complete board.
#[test]
fn normalization_fills_walls() {
    let mut board = Board::new(
        2,
        2,
        vec![tile(TileType::Empty, Some(Pawn::Fox), RIGHT, 0, 0)],
    );
    board.fulfill_board_with_walls();
    assert_eq!(board.tiles.len(), 4);
    for t in &board.tiles[1..] {
        assert!(matches!(t.tile_type, TileType::Wall));
        assert_eq!(t.pawn, None);
        assert_eq!(t.edges, 0);
    }
    board.fulfill_board_with_walls();
    assert_eq!(board.tiles.len(), 4);
}

/// With a zero generation budget the solver expands nothing and reports no
/// solution.
#[test]
fn budget_zero_reports_none() {
    let board = Board::new(
        2,
        1,
        vec![
            tile(TileType::Empty, Some(Pawn::Fox), RIGHT, 0, 0),
            tile(TileType::Goal, None, LEFT, 1, 0),
        ],
    );
    let mut solver = Solver::new(board, 0);
    assert!(solver.solve().is_none());
}

/// The generation loop never tests the seed board itself: even an already
/// solved board yields no solution under a zero budget.
#[test]
fn budget_zero_solved_board_reports_none() {
    let board = Board::new(1, 1, vec![tile(TileType::Goal, Some(Pawn::Fox), 0, 0, 0)]);
    let mut solver = Solver::new(board, 0);
    assert!(solver.solve().is_none());
}

/// A puzzle that needs two pushes is unsolved under a one-generation budget
/// and solved under two.
#[test]
fn budget_bounds_search_depth() {
    let tiles = vec![
        tile(TileType::Empty, Some(Pawn::Fox), RIGHT, 0, 0),
        tile(TileType::Empty, None, LEFT | DOWN, 1, 0),
        tile(TileType::Wall, None, 0, 0, 1),
        tile(TileType::Goal, None, UP, 1, 1),
    ];
    let board_short = Board::new(2, 2, tiles.clone());
    let mut solver_short = Solver::new(board_short, 1);
    assert!(solver_short.solve().is_none());

    let board_long = Board::new(2, 2, tiles);
    let mut solver_long = Solver::new(board_long, 2);
    let branch = solver_long.solve().expect("two generations suffice");
    assert_eq!(branch.history.len(), 4);
    assert_eq!(branch.history[1].pawn_at_move_to, Some((0, 0, RIGHT)));
    assert_eq!(branch.history[2].pawn_at_move_to, Some((1, 0, DOWN)));
    assert!(branch.history[3].board.is_solved());
}

/// Repeated solves of the same board with the same budget report identical
/// histories.
#[test]
fn solve_is_deterministic() {
    let make = || {
        Board::new(
            2,
            2,
            vec![
                tile(TileType::Empty, Some(Pawn::Fox), RIGHT | DOWN, 0, 0),
                tile(TileType::Empty, None, LEFT | DOWN, 1, 0),
                tile(TileType::Empty, None, UP | RIGHT, 0, 1),
                tile(TileType::Goal, None, UP | LEFT, 1, 1),
            ],
        )
    };
    let s1 = start_solver(make()).expect("solvable");
    let s2 = start_solver(make()).expect("solvable");
    assert_eq!(s1.steps.len(), s2.steps.len());
    for (a, b) in s1.steps.iter().zip(s2.steps.iter()) {
        assert_eq!(a.pawn_at_move_to, b.pawn_at_move_to);
        assert!(a.board.same_state(&b.board));
        assert_eq!(a.board.tiles.len(), b.board.tiles.len());
    }
}

/// A solution found through the full solver ends on a solved board and its
/// waypoint count respects the budget.
#[test]
fn solver_reports_shortest_within_budget() {
    let board = Board::new(
        2,
        2,
        vec![
            tile(TileType::Empty, Some(Pawn::Fox), RIGHT, 0, 0),
            tile(TileType::Empty, None, LEFT | DOWN, 1, 0),
            tile(TileType::Goal, None, UP, 1, 1),
        ],
    );
    let solution = start_solver(board).expect("solvable within the default budget");
    assert!(solution.steps.len() <= 34);
    assert_eq!(solution.steps.len(), 4);
    assert!(solution.steps[3].board.is_solved());
    // The filled wall at (0, 1) is part of every reported snapshot.
    assert_eq!(solution.steps[0].board.tiles.len(), 4);
}

/// An unsolvable puzzle exhausts its budget and reports nothing.
#[test]
fn unsolvable_reports_none() {
    let board = Board::new(
        2,
        1,
        vec![
            tile(TileType::Empty, Some(Pawn::Fox), 0, 0, 0),
            tile(TileType::Goal, None, 0, 1, 0),
        ],
    );
    assert!(start_solver(board).is_none());
}
