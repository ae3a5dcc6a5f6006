use labyrinth::board::{Board, Content};
use labyrinth::direction::Direction;
use labyrinth::range_helper::centered_range;
use labyrinth::vect2_t::UCoord2;

fn rows(v: &[&str]) -> Vec<String> {
    v.iter().map(|s| s.to_string()).collect()
}

#[test]
fn centered_range_clips_at_edges() {
    assert_eq!(centered_range(0, 10), (0, 3));
    assert_eq!(centered_range(1, 10), (0, 4));
    assert_eq!(centered_range(2, 10), (0, 5));
    assert_eq!(centered_range(5, 10), (3, 8));
    assert_eq!(centered_range(8, 10), (6, 10));
    assert_eq!(centered_range(9, 10), (7, 10));
}

#[test]
fn update_reveals_only_the_window() {
    let mut b = Board::new(7, 7, 100);
    let data = rows(&[
        ".......", ".......", ".......", ".......", ".......", ".......", ".......",
    ]);
    b.update_with(UCoord2::new(0, 0), &data);
    // the 3-by-3 corner window is revealed, the rest stays unknown
    for y in 0..7usize {
        for x in 0..7usize {
            let c = b.get_content(&UCoord2::new(x, y));
            if x < 3 && y < 3 {
                assert_eq!(c, Content::Empty);
            } else {
                assert_eq!(c, Content::Unknown);
            }
        }
    }
    assert_eq!(b.rick_start_coord(), Some(UCoord2::new(0, 0)));
    assert_eq!(b.cmd_room_coord(), None);
}

#[test]
fn update_parses_symbols_and_finds_the_goal() {
    let mut b = Board::new(5, 5, 100);
    let data = rows(&["#.T..", "..C..", ".....", "??...", "....."]);
    b.update_with(UCoord2::new(2, 1), &data);
    assert_eq!(b.get_content(&UCoord2::new(0, 0)), Content::Wall);
    assert_eq!(b.get_content(&UCoord2::new(1, 0)), Content::Empty);
    assert_eq!(b.get_content(&UCoord2::new(2, 0)), Content::Empty);
    assert_eq!(b.get_content(&UCoord2::new(2, 1)), Content::Empty);
    // an unreadable symbol keeps the cell unknown
    assert_eq!(b.get_content(&UCoord2::new(0, 3)), Content::Unknown);
    // the goal room is remembered once observed
    assert_eq!(b.cmd_room_coord(), Some(UCoord2::new(2, 1)));
}

#[test]
fn first_observation_wins() {
    let mut b = Board::new(5, 5, 100);
    b.update_with(UCoord2::new(2, 2), &rows(&[".....", ".....", ".....", ".....", "....."]));
    // a later, contradictory observation never reverts known cells
    b.update_with(UCoord2::new(2, 2), &rows(&["#####", "#####", "#####", "#####", "#####"]));
    for y in 0..5usize {
        for x in 0..5usize {
            assert_eq!(b.get_content(&UCoord2::new(x, y)), Content::Empty);
        }
    }
}

#[test]
fn update_is_idempotent() {
    let data = rows(&["..#..", "..C..", ".#...", ".....", "....."]);
    let agent = UCoord2::new(1, 2);

    let mut once = Board::new(5, 5, 40);
    once.update_with(agent, &data);

    let mut twice = Board::new(5, 5, 40);
    twice.update_with(agent, &data);
    twice.update_with(agent, &data);

    for y in 0..5usize {
        for x in 0..5usize {
            let c = UCoord2::new(x, y);
            assert_eq!(once.get_content(&c), twice.get_content(&c));
        }
    }
    assert_eq!(once.rick_start_coord(), twice.rick_start_coord());
    assert_eq!(once.cmd_room_coord(), twice.cmd_room_coord());
}

#[test]
fn render_shows_knowledge_agent_and_goal() {
    let mut b = Board::new(5, 3, 10);
    b.update_with(UCoord2::new(1, 1), &rows(&["#.C..", ".....", "#...."]));
    // the window around (1,1) spans rows 0..3 and columns 0..4: the last
    // column stays unknown, the agent and the goal room show as themselves
    assert_eq!(b.render(), "#.C.?\n.K..?\n#...?\n");
}

#[test]
fn neighbours_stay_in_board() {
    let b = Board::new(3, 3, 10);
    let ns = b.neighbours_in_board_iter(UCoord2::new(0, 0), Direction::Left);
    assert_eq!(ns, vec![UCoord2::new(1, 0), UCoord2::new(0, 1)]);
    let ns = b.neighbours_in_board_iter(UCoord2::new(1, 1), Direction::Left);
    assert_eq!(ns, vec![
        UCoord2::new(0, 1),
        UCoord2::new(1, 0),
        UCoord2::new(2, 1),
        UCoord2::new(1, 2),
    ]);
    let ns = b.neighbours_in_board_iter(UCoord2::new(2, 2), Direction::Left);
    assert_eq!(ns, vec![UCoord2::new(1, 2), UCoord2::new(2, 1)]);
}
