use labyrinth::board::Board;
use labyrinth::exploration::{Engine, SearchResult};
use labyrinth::vect2_t::UCoord2;

fn rows(v: &[&str]) -> Vec<String> {
    v.iter().map(|s| s.to_string()).collect()
}

#[test]
fn target_underfoot_is_found() {
    let mut b = Board::new(3, 3, 10);
    b.update_with(UCoord2::new(1, 1), &rows(&["...", ".C.", "..."]));
    let mut e = Engine::new();
    let r = e.start_look_forward(&b, UCoord2::new(1, 1), &Some(UCoord2::new(1, 1)), 10);
    assert_eq!(r, SearchResult::TargetFound);
}

#[test]
fn advances_toward_the_unknown_frontier() {
    // the target is nowhere in sight: only a corner window is revealed, and
    // the search must stay optimistic and move out, never answer BadWay
    let mut b = Board::new(5, 5, 100);
    b.update_with(UCoord2::new(0, 0), &rows(&[".....", ".....", ".....", ".....", "....."]));
    let mut e = Engine::new();
    let r = e.start_look_forward(&b, UCoord2::new(0, 0), &None, 10);
    assert_eq!(r, SearchResult::GoodWay);
    let next = e.get_next_coord(&b, UCoord2::new(0, 0));
    assert_eq!(next, Some(UCoord2::new(1, 0)));
}

#[test]
fn boxed_in_agent_exhausts_every_branch() {
    // walls all around: the planner must prove the situation dead rather
    // than loop or abort
    let mut b = Board::new(3, 3, 10);
    b.update_with(UCoord2::new(1, 1), &rows(&["###", "#.#", "###"]));
    let mut e = Engine::new();
    let r = e.start_look_forward(&b, UCoord2::new(1, 1), &None, 100);
    assert_eq!(r, SearchResult::BadWay);
}

#[test]
fn known_dead_end_collapses_to_bad_way() {
    // a fully known corridor with no exit: every branch is explored, every
    // cell condemned, and the whole search answers BadWay
    let mut b = Board::new(3, 1, 10);
    b.update_with(UCoord2::new(1, 0), &rows(&["..."]));
    let mut e = Engine::new();
    let r = e.start_look_forward(&b, UCoord2::new(1, 0), &None, 100);
    assert_eq!(r, SearchResult::BadWay);
}

#[test]
fn backtrack_clears_the_retreat_cell() {
    let mut b = Board::new(2, 1, 10);
    b.update_with(UCoord2::new(0, 0), &rows(&[".."]));
    let mut e = Engine::new();
    // pretend the cell to the right was visited on an earlier turn
    e.set_square_covered(UCoord2::new(1, 0));
    // no pending path: the planner retreats there and clears its mark
    let r = e.get_next_coord(&b, UCoord2::new(0, 0));
    assert_eq!(r, Some(UCoord2::new(1, 0)));
    // the same retreat cannot be taken twice: the mark is gone, so the cell
    // is eligible for fresh exploration instead
    let r2 = e.get_next_coord(&b, UCoord2::new(0, 0));
    assert_eq!(r2, None);
}

#[test]
fn clear_forgets_all_marks() {
    let mut b = Board::new(2, 1, 10);
    b.update_with(UCoord2::new(0, 0), &rows(&[".."]));
    let mut e = Engine::new();
    e.set_square_covered(UCoord2::new(1, 0));
    e.clear();
    // with every mark forgotten there is no covered neighbour to retreat to
    let r = e.get_next_coord(&b, UCoord2::new(0, 0));
    assert_eq!(r, None);
}

#[test]
fn pending_path_is_served_before_backtracking() {
    let mut b = Board::new(5, 5, 100);
    b.update_with(UCoord2::new(2, 2), &rows(&[".....", ".....", "..C..", ".....", "....."]));
    let mut e = Engine::new();
    // the goal is known and two cells away: the search walks toward it
    let r = e.start_look_forward(&b, UCoord2::new(0, 2), &Some(UCoord2::new(2, 2)), 10);
    assert_eq!(r, SearchResult::GoodWay);
    let next = e.get_next_coord(&b, UCoord2::new(0, 2));
    assert_eq!(next, Some(UCoord2::new(1, 2)));
}
