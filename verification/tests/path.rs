use labyrinth::a_star_algo::AStarAlgo;
use labyrinth::board::{Board, Content};
use labyrinth::vect2_t::UCoord2;

fn rows(v: &[&str]) -> Vec<String> {
    v.iter().map(|s| s.to_string()).collect()
}

fn full_board(map: &[&str]) -> Board {
    let h = map.len();
    let w = map[0].len();
    let mut b = Board::new(w, h, 100);
    // reveal everything by observing from enough window centres
    let mut y = 2usize;
    loop {
        let mut x = 2usize;
        loop {
            b.update_with(UCoord2::new(x.min(w - 1), y.min(h - 1)), &rows(map));
            if x >= w {
                break;
            }
            x += 4;
        }
        if y >= h {
            break;
        }
        y += 4;
    }
    b
}

#[test]
fn straight_path_matches_manhattan_distance() {
    let b = full_board(&["....", "....", "....", "...."]);
    let mut astar = AStarAlgo::new();
    let path = astar
        .compute_path(&b, UCoord2::new(0, 0), UCoord2::new(3, 3), &[Content::Empty])
        .expect("a fully empty grid always has a path");
    assert_eq!(path.len(), 6);
    assert_eq!(*path.last().unwrap(), UCoord2::new(3, 3));
    // each step is one cell, never diagonal
    let mut prev = UCoord2::new(0, 0);
    for c in path {
        let dx = (c.x as i64 - prev.x as i64).abs();
        let dy = (c.y as i64 - prev.y as i64).abs();
        assert_eq!(dx + dy, 1);
        prev = c;
    }
}

#[test]
fn path_threads_the_wall_gap() {
    // a central wall column with a single gap: the shortest route goes
    // straight through it
    let b = full_board(&["..#..", "..#..", ".....", "..#..", "..#.."]);
    let mut astar = AStarAlgo::new();
    let path = astar
        .compute_path(&b, UCoord2::new(0, 2), UCoord2::new(4, 2), &[Content::Empty])
        .expect("the gap makes the target reachable");
    assert_eq!(path.len(), 4);
    assert_eq!(path, vec![
        UCoord2::new(1, 2),
        UCoord2::new(2, 2),
        UCoord2::new(3, 2),
        UCoord2::new(4, 2),
    ]);
}

#[test]
fn unreachable_target_is_not_found() {
    // the agent is boxed in by walls: an explicit not-found outcome, no abort
    let b = full_board(&["###", "#.#", "###"]);
    let mut astar = AStarAlgo::new();
    let r = astar.compute_path(&b, UCoord2::new(1, 1), UCoord2::new(0, 0), &[Content::Empty]);
    assert!(r.is_none());

    let b = full_board(&[".#.", ".#.", ".#."]);
    let mut astar = AStarAlgo::new();
    let r = astar.compute_path(&b, UCoord2::new(0, 1), UCoord2::new(2, 1), &[Content::Empty]);
    assert!(r.is_none());
}

#[test]
fn start_equals_target_gives_the_empty_path() {
    let b = full_board(&["...", "...", "..."]);
    let mut astar = AStarAlgo::new();
    let path = astar
        .compute_path(&b, UCoord2::new(1, 1), UCoord2::new(1, 1), &[Content::Empty])
        .expect("standing on the target is success");
    assert!(path.is_empty());
}

#[test]
fn unknown_cells_walkable_when_asked() {
    // only a corner is revealed; an optimistic route may cross unknown cells
    let mut b = Board::new(5, 5, 100);
    b.update_with(UCoord2::new(0, 0), &rows(&[".....", ".....", ".....", ".....", "....."]));
    let mut astar = AStarAlgo::new();
    let strict = astar.compute_path(
        &b,
        UCoord2::new(0, 0),
        UCoord2::new(4, 4),
        &[Content::Empty],
    );
    assert!(strict.is_none());
    let optimistic = astar
        .compute_path(&b, UCoord2::new(0, 0), UCoord2::new(4, 4), &[
            Content::Empty,
            Content::Unknown,
        ])
        .expect("unknown cells count as traversable here");
    assert_eq!(optimistic.len(), 8);
}
