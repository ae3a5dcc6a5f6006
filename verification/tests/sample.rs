use labyrinth::game_sample::{GameSample, AGENT_SYMBOL, UNREVEALED};
use labyrinth::vect2_t::UCoord2;

fn byte_rows(v: &[&str]) -> Vec<Vec<u8>> {
    v.iter().map(|s| s.as_bytes().to_vec()).collect()
}

#[test]
fn fresh_sample_reveals_nothing() {
    let gs = GameSample::from_rows(UCoord2::new(1, 1), 30, byte_rows(&["#####", "#..C#", "#####"]));
    assert_eq!(gs.width(), 5);
    assert_eq!(gs.height(), 3);
    assert_eq!(gs.rounds(), 30);
    assert_eq!(gs.start(), UCoord2::new(1, 1));
    assert_eq!(gs.current(), UCoord2::new(1, 1));
    for y in 0..3usize {
        for x in 0..5usize {
            assert_eq!(gs.view_row(y)[x], UNREVEALED);
        }
    }
}

#[test]
fn update_view_shows_the_window_and_the_agent() {
    let mut gs =
        GameSample::from_rows(UCoord2::new(0, 0), 30, byte_rows(&["..#..", ".....", "..C..", ".....", "....."]));
    gs.update_view();
    // the corner window now mirrors the recorded map, the agent cell aside
    assert_eq!(gs.view_row(0)[0], AGENT_SYMBOL);
    assert_eq!(gs.view_row(0)[1], b'.');
    assert_eq!(gs.view_row(0)[2], b'#');
    assert_eq!(gs.view_row(1)[1], b'.');
    assert_eq!(gs.view_row(2)[2], b'C');
    // beyond the window nothing is revealed
    assert_eq!(gs.view_row(0)[3], UNREVEALED);
    assert_eq!(gs.view_row(3)[0], UNREVEALED);
    assert_eq!(gs.view_row(4)[4], UNREVEALED);
}

#[test]
fn protocol_lines_replay_the_recording() {
    let mut gs = GameSample::from_rows(UCoord2::new(1, 0), 7, byte_rows(&["...", "#.C"]));

    let mut stdin = gs.init_data_reader();
    let mut buf: Vec<u8> = Vec::new();
    let n = stdin.read_line(&mut buf);
    assert_eq!(buf, b"2 3 7\n".to_vec());
    assert_eq!(n, 6);
    let mut buf2: Vec<u8> = Vec::new();
    assert_eq!(stdin.read_line(&mut buf2), 0);
    drop(stdin);

    gs.update_view();
    let mut stdin = gs.round_data_reader();
    let mut line = Vec::new();
    stdin.read_line(&mut line);
    // the agent line comes row first, column second
    assert_eq!(line, b"0 1\n".to_vec());
    let mut row0 = Vec::new();
    stdin.read_line(&mut row0);
    assert_eq!(row0, b".K.\n".to_vec());
    let mut row1 = Vec::new();
    stdin.read_line(&mut row1);
    assert_eq!(row1, b"#.C\n".to_vec());
    let mut rest = Vec::new();
    assert_eq!(stdin.read_line(&mut rest), 0);
}

#[test]
fn actions_move_the_agent() {
    let mut gs = GameSample::from_rows(UCoord2::new(1, 1), 30, byte_rows(&["...", "...", "..."]));
    gs.set_action("RIGHT");
    assert_eq!(gs.current(), UCoord2::new(2, 1));
    gs.set_action("LEFT");
    gs.set_action("LEFT");
    assert_eq!(gs.current(), UCoord2::new(0, 1));
    gs.set_action("DOWN");
    assert_eq!(gs.current(), UCoord2::new(0, 2));
    gs.set_action("UP");
    gs.set_action("UP");
    assert_eq!(gs.current(), UCoord2::new(0, 0));
    // the recorded map itself never changes
    assert_eq!(gs.orig_row(1)[1], b'.');
}
