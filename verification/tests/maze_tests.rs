use argos_runner::maze::{generate_maze, MazeWall, WallSide};
use std::collections::HashSet;

fn expected_walls(w: usize, h: usize) -> usize {
    w * (h - 1) + h * (w - 1) - (w * h - 1)
}

fn has(walls: &HashSet<(bool, usize, usize)>, north: bool, x: usize, y: usize) -> bool {
    walls.contains(&(north, x, y))
}

/// Cells reachable from the top-left corner through the gaps between walls.
fn reachable(walls: &[MazeWall], w: usize, h: usize) -> usize {
    let set: HashSet<(bool, usize, usize)> =
        walls.iter().map(|m| (m.side == WallSide::North, m.x, m.y)).collect();
    let mut seen = vec![false; w * h];
    let mut stack = vec![(0usize, 0usize)];
    seen[0] = true;
    let mut count = 1;
    while let Some((x, y)) = stack.pop() {
        let mut next = Vec::new();
        if y > 0 && !has(&set, true, x, y) {
            next.push((x, y - 1));
        }
        if y + 1 < h && !has(&set, true, x, y + 1) {
            next.push((x, y + 1));
        }
        if x > 0 && !has(&set, false, x, y) {
            next.push((x - 1, y));
        }
        if x + 1 < w && !has(&set, false, x + 1, y) {
            next.push((x + 1, y));
        }
        for (nx, ny) in next {
            if !seen[ny * w + nx] {
                seen[ny * w + nx] = true;
                count += 1;
                stack.push((nx, ny));
            }
        }
    }
    count
}

fn check_maze(w: usize, h: usize) {
    let walls = generate_maze(w, h);
    assert_eq!(walls.len(), expected_walls(w, h), "wall count for {}x{}", w, h);
    for m in &walls {
        assert!(m.x < w && m.y < h);
        match m.side {
            WallSide::North => assert!(m.y >= 1),
            WallSide::West => assert!(m.x >= 1),
        }
    }
    for pair in walls.windows(2) {
        let key = |m: &MazeWall| (m.y, m.x, if m.side == WallSide::North { 0 } else { 1 });
        assert!(key(&pair[0]) < key(&pair[1]), "walls out of order");
    }
    assert_eq!(reachable(&walls, w, h), w * h, "maze {}x{} not connected", w, h);
}

#[test]
fn single_cell_maze_has_no_walls() {
    assert!(generate_maze(1, 1).is_empty());
}

#[test]
fn corridor_mazes_are_open() {
    assert!(generate_maze(1, 9).is_empty());
    assert!(generate_maze(9, 1).is_empty());
}

#[test]
fn two_by_two_maze_keeps_one_wall() {
    let walls = generate_maze(2, 2);
    assert_eq!(walls.len(), 1);
}

#[test]
fn mazes_are_perfect() {
    for &(w, h) in &[(2, 3), (3, 2), (5, 5), (7, 4), (10, 10), (16, 9), (30, 30)] {
        for _ in 0..5 {
            check_maze(w, h);
        }
    }
}

#[test]
fn mazes_differ_between_calls() {
    let first = generate_maze(8, 8);
    let differs = (0..20).any(|_| generate_maze(8, 8) != first);
    assert!(differs);
}
