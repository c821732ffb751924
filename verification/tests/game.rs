use braid::errors::GameError;
use braid::maze::{Cell, Maze};
use braid::player::Player;
use braid::server::{PlayerData, Server};
use braid::treasure::TreasureClock;

fn full_mask(w: usize, h: usize, value: bool) -> Vec<Vec<bool>> {
    vec![vec![value; h]; w]
}

fn is_pristine(cell: &Cell, x: usize, y: usize) -> bool {
    cell.x == x && cell.y == y && !cell.visited && cell.walls.iter().all(|&p| p)
}

#[test]
fn test_maze_generation() {
    let mut maze = Maze::new(10, 10);
    maze.generate();
    // Check that all cells are visited.
    assert!(maze.grid.iter().all(|row| row.iter().all(|cell| cell.visited)));
}

#[test]
fn test_masked_maze() {
    let mut maze = Maze::new(5, 5);
    maze.generate();
    let mask = vec![
        vec![true, false, false, false, false],
        vec![true, true, false, false, false],
        vec![false, true, false, false, false],
        vec![false, true, true, false, false],
        vec![false, false, true, true, false],
    ];
    let masked_maze = maze.get_masked_maze(&mask).unwrap();
    assert!(masked_maze.grid[0][0].visited); // Check that visible cells are visited.
    assert!(!masked_maze.grid[0][1].visited); // Check that masked cells are not visited.
}

#[test]
fn test_commit_solution_path() {
    let maze = Maze::new(5, 5);
    let solution_path = vec![(0, 0), (0, 1), (1, 1), (2, 1), (2, 2)];
    let commitment = maze.commit_solution_path(&solution_path);
    assert_eq!(commitment.len(), 32); // Check the length of the SHA-256 hash.
}

#[test]
fn test_generated_maze_spans_grid() {
    // Exactly width * height - 1 wall pairs are open, and walls stay
    // symmetric between neighbors.
    let mut maze = Maze::new(6, 4);
    maze.generate();
    let mut open_pairs = 0;
    for x in 0..6 {
        for y in 0..4 {
            let c = &maze.grid[x][y];
            if x + 1 < 6 {
                assert_eq!(c.walls[1], maze.grid[x + 1][y].walls[3]);
                if !c.walls[1] {
                    open_pairs += 1;
                }
            }
            if y + 1 < 4 {
                assert_eq!(c.walls[2], maze.grid[x][y + 1].walls[0]);
                if !c.walls[2] {
                    open_pairs += 1;
                }
            }
        }
    }
    assert_eq!(open_pairs, 6 * 4 - 1);
}

#[test]
fn test_mask_all_true_is_identity() {
    let mut maze = Maze::new(4, 3);
    maze.generate();
    let out = maze.get_masked_maze(&full_mask(4, 3, true)).unwrap();
    assert_eq!(out.width, maze.width);
    assert_eq!(out.height, maze.height);
    for x in 0..4 {
        for y in 0..3 {
            let a = &out.grid[x][y];
            let b = &maze.grid[x][y];
            assert_eq!((a.x, a.y, a.visited, a.walls), (b.x, b.y, b.visited, b.walls));
        }
    }
}

#[test]
fn test_mask_all_false_is_pristine() {
    let mut maze = Maze::new(4, 3);
    maze.generate();
    let out = maze.get_masked_maze(&full_mask(4, 3, false)).unwrap();
    for x in 0..4 {
        for y in 0..3 {
            assert!(is_pristine(&out.grid[x][y], x, y));
        }
    }
}

#[test]
fn test_mask_dimension_mismatch() {
    let maze = Maze::new(4, 3);
    assert_eq!(
        maze.get_masked_maze(&full_mask(3, 3, true)).err(),
        Some(GameError::DimensionMismatch)
    );
    assert_eq!(
        maze.get_masked_maze(&full_mask(4, 2, true)).err(),
        Some(GameError::DimensionMismatch)
    );
}

#[test]
fn test_treasure_schedule() {
    // initial_treasure 1000.0 units (10000 tenths), max_turns 100.
    let mut clock = TreasureClock {
        initial_treasure: 10000,
        max_turns: 100,
        current_turn: 50,
        treasure: 0,
    };
    clock.update_treasure();
    assert_eq!(clock.treasure, 10000);
    assert_eq!(clock.treasure as f64 / 10.0, 1000.0);
    clock.current_turn = 60;
    clock.update_treasure();
    assert_eq!(clock.treasure, 9990);
    assert_eq!(clock.treasure as f64 / 10.0, 999.0);
    clock.current_turn = 100;
    clock.update_treasure();
    assert_eq!(clock.treasure, 9950);
    assert_eq!(clock.treasure as f64 / 10.0, 995.0);
}

#[test]
fn test_treasure_clamped_at_zero() {
    let mut clock = TreasureClock { initial_treasure: 3, max_turns: 0, current_turn: 7, treasure: 3 };
    clock.update_treasure();
    assert_eq!(clock.treasure, 0);
}

#[test]
fn test_treasure_advance_turn() {
    let mut clock = TreasureClock::new(10000, 100);
    for _ in 0..60 {
        clock.advance_turn();
    }
    assert_eq!(clock.current_turn, 60);
    assert_eq!(clock.treasure(), 9990);
}

#[test]
fn test_end_to_end_masked_session() {
    // Generate a 5x5 maze; player A's mask reveals only (0, 0) and (0, 1).
    let mut server = Server::new(5, 5, 100, 10000);
    server.add_player(1, "player_a", "server").unwrap();
    let mut mask = full_mask(5, 5, false);
    mask[0][0] = true;
    mask[0][1] = true;
    let request = PlayerData { id: 1, exploration_mask: mask, commitment: vec![7; 32] };
    let (view, game_over) = server.process_request(&request).unwrap();
    assert!(!game_over);
    assert_eq!(view.grid[0][0].visited, server.maze.grid[0][0].visited);
    assert_eq!(view.grid[0][1].visited, server.maze.grid[0][1].visited);
    // The far corner is pristine regardless of the true maze state there.
    assert!(is_pristine(&view.grid[4][4], 4, 4));
    assert_eq!(server.clock.current_turn, 1);
}

#[test]
fn test_server_rejects_bad_requests() {
    let mut server = Server::new(3, 3, 10, 100);
    server.add_player(1, "player_a", "server").unwrap();
    // Duplicate registration is refused.
    assert_eq!(server.add_player(1, "player_a", "server"), Err(GameError::ProtocolError));
    // A request from an unknown player is refused.
    let unknown = PlayerData { id: 2, exploration_mask: full_mask(3, 3, true), commitment: vec![] };
    assert_eq!(server.process_request(&unknown).err(), Some(GameError::ProtocolError));
    // A mask of the wrong shape is refused.
    let bad = PlayerData { id: 1, exploration_mask: full_mask(2, 3, true), commitment: vec![] };
    assert_eq!(server.process_request(&bad).err(), Some(GameError::DimensionMismatch));
    assert_eq!(server.clock.current_turn, 0);
}

#[test]
fn test_exploration_merge_is_monotonic() {
    let mut server = Server::new(3, 3, 10, 100);
    server.add_player(1, "player_a", "server").unwrap();
    let mut first = full_mask(3, 3, false);
    first[2][2] = true;
    let request = PlayerData { id: 1, exploration_mask: first, commitment: vec![1] };
    server.update_player_exploration(&request).unwrap();
    // A later request that claims less visibility cannot un-reveal (2, 2).
    let second = PlayerData { id: 1, exploration_mask: full_mask(3, 3, false), commitment: vec![2] };
    server.update_player_exploration(&second).unwrap();
    assert!(server.players[0].exploration_mask[2][2]);
    assert_eq!(server.players[0].commitment, vec![2]);
}

#[test]
fn test_player_simulated_exploration_covers_grid() {
    let mut player = Player::new(1, 10, 10);
    player.simulate_exploration();
    assert!(player.exploration_mask.iter().all(|row| row.iter().all(|&seen| seen)));
}

#[test]
fn test_player_commitment_tracks_mask() {
    let mut player = Player::new(1, 4, 4);
    let request = player.explore_request();
    assert_eq!(request.id, 1);
    assert_eq!(request.commitment.len(), 32);
    // Revealing a cell changes the committed value.
    let before = player.commitment.clone();
    player.simulate_exploration();
    player.commit_current_state();
    assert_ne!(player.commitment, before);
    assert_eq!(player.commitment.len(), 32);
}
