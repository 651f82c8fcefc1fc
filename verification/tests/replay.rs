use minesweeper::board::Board;
use minesweeper::click::Click;
use minesweeper::field_generator::PlayFieldGenerator;
use minesweeper::play_board::PlayBoard;
use minesweeper::position::Position;
use minesweeper::replay_board::ReplayBoard;
use minesweeper::replay_file::ReplayFile;
use minesweeper::sounds::Sounds;
use minesweeper::time::Time;
use minesweeper::time::TimeModifier;
use minesweeper::visibility::Visibility;
use minesweeper::won::Won;

fn pos(x: usize, y: usize) -> Position {
    Position { x, y }
}

const SEC: u64 = 1_000_000_000;

fn sample_file() -> ReplayFile {
    // 5x5 board, one mine in the far corner, solved by a single click
    ReplayFile::new(
        vec![pos(4, 4)],
        (5, 5),
        vec![Click::Reveal(pos(0, 0), 2 * SEC)],
        2 * SEC + SEC / 2,
    )
}

#[test]
fn validate_accepts_good_file() {
    assert_eq!(sample_file().validate(), None);
}

#[test]
fn validate_rejects_empty_clicks() {
    let f = ReplayFile::new(vec![pos(4, 4)], (5, 5), vec![], SEC);
    assert_eq!(f.validate().unwrap(), "No clicks");
}

#[test]
fn validate_rejects_click_out_of_bounds() {
    let f = ReplayFile::new(
        vec![pos(4, 4)],
        (5, 5),
        vec![Click::Reveal(pos(5, 0), 0)],
        SEC,
    );
    assert_eq!(f.validate().unwrap(), "Click out of bounds");
}

#[test]
fn validate_rejects_mine_out_of_bounds() {
    let f = ReplayFile::new(
        vec![pos(4, 5)],
        (5, 5),
        vec![Click::Reveal(pos(0, 0), 0)],
        SEC,
    );
    assert_eq!(f.validate().unwrap(), "Mine out of bounds");
}

#[test]
fn validate_rejects_duplicate_mines() {
    let f = ReplayFile::new(
        vec![pos(4, 4), pos(4, 4)],
        (5, 5),
        vec![Click::Reveal(pos(0, 0), 0)],
        SEC,
    );
    assert_eq!(f.validate().unwrap(), "Duplicate mines");
}

#[test]
fn validate_rejects_mine_near_first_click() {
    let f = ReplayFile::new(
        vec![pos(1, 1)],
        (5, 5),
        vec![Click::Reveal(pos(0, 0), 0)],
        SEC,
    );
    assert_eq!(
        f.validate().unwrap(),
        "Invalid board generation: mine near first click"
    );
}

#[test]
fn validate_rejects_inconsistent_duration() {
    // total shorter than the last click
    let f = ReplayFile::new(
        vec![pos(4, 4)],
        (5, 5),
        vec![Click::Reveal(pos(0, 0), 2 * SEC)],
        SEC,
    );
    assert_eq!(f.validate().unwrap(), "Invalid duration");
    // total more than a second past the last click
    let g = ReplayFile::new(
        vec![pos(4, 4)],
        (5, 5),
        vec![Click::Reveal(pos(0, 0), SEC)],
        3 * SEC,
    );
    assert_eq!(g.validate().unwrap(), "Invalid duration");
}

#[test]
fn json_round_trip_reproduces_file() {
    let f = ReplayFile::new(
        vec![pos(4, 4), pos(0, 4)],
        (5, 6),
        vec![
            Click::Reveal(pos(0, 0), 0),
            Click::Flag(pos(4, 4), 1_500_000_000),
            Click::Reveal(pos(2, 3), 2 * SEC),
        ],
        2 * SEC + 100,
    );
    let bytes = f.to_json();
    let g = match ReplayFile::from_json(&bytes) {
        Ok(g) => g,
        Err(e) => panic!("canonical bytes must decode, got: {}", e),
    };
    assert_eq!(g.mines, f.mines);
    assert_eq!(g.size, f.size);
    assert_eq!(g.clicks.len(), f.clicks.len());
    for (a, b) in f.clicks.iter().zip(g.clicks.iter()) {
        assert_eq!(a, b);
    }
    assert_eq!(g.duration, f.duration);
}

#[test]
fn json_encoding_is_readable() {
    let f = sample_file();
    let bytes = f.to_json();
    let text = String::from_utf8(bytes).unwrap();
    assert_eq!(
        text,
        "{\"mines\":[{\"x\":4,\"y\":4}],\"size\":[5,5],\"clicks\":[{\"Reveal\":{\"x\":0,\"y\":0,\"duration\":2000000000}}],\"duration\":2500000000}"
    );
}

#[test]
fn json_rejects_malformed_input() {
    let garbage: Vec<u8> = "not json at all".bytes().collect();
    assert!(ReplayFile::from_json(&garbage).is_err());
    let empty: Vec<u8> = Vec::new();
    assert!(ReplayFile::from_json(&empty).is_err());
}

#[test]
fn json_rejects_invalid_replay() {
    // well-formed bytes, but the replay itself breaks a validation rule
    let f = ReplayFile::new(vec![pos(1, 1)], (5, 5), vec![Click::Reveal(pos(0, 0), 0)], SEC);
    let bytes = f.to_json();
    let err = match ReplayFile::from_json(&bytes) {
        Err(e) => e,
        Ok(_) => panic!("an invalid replay must be refused"),
    };
    assert_eq!(err, "Invalid board generation: mine near first click");
}

#[test]
fn replay_board_plays_back_to_the_recorded_outcome() {
    let mut rb = ReplayBoard::new(sample_file());
    let sounds = rb.seek(1, 0);
    assert_eq!(rb.next_click, 1);
    assert!(sounds.contains(&Sounds::Open));
    assert!(sounds.contains(&Sounds::Win));
    let fields = rb.board.fields.as_ref().unwrap();
    assert!(matches!(fields.won, Won::Won));
    assert!(matches!(
        fields.fields[pos(4, 4).index(5, 5)].visibility,
        Visibility::Closed
    ));
    assert!(matches!(rb.board.time, Time::Ended(d) if d == 2 * SEC + SEC / 2));
}

#[test]
fn replay_board_seek_backward_rebuilds() {
    // two mines in the last column: the opening flood leaves (4,3) closed,
    // so the game takes a flag and one more reveal to finish
    let file = ReplayFile::new(
        vec![pos(4, 4), pos(4, 2)],
        (5, 5),
        vec![
            Click::Reveal(pos(0, 0), SEC),
            Click::Flag(pos(4, 4), 2 * SEC),
            Click::Reveal(pos(4, 3), 3 * SEC),
        ],
        3 * SEC,
    );
    assert_eq!(file.validate(), None);
    let mut rb = ReplayBoard::new(file);
    rb.seek(3, 0);
    assert!(!rb.board.still_playing());
    assert!(matches!(rb.board.time, Time::Ended(d) if d == 3 * SEC));
    rb.seek(2, 0);
    assert_eq!(rb.next_click, 2);
    let fields = rb.board.fields.as_ref().unwrap();
    assert!(fields.won.still_playing());
    assert!(matches!(
        fields.fields[pos(4, 4).index(5, 5)].visibility,
        Visibility::Flagged
    ));
    assert!(matches!(
        fields.fields[pos(4, 3).index(5, 5)].visibility,
        Visibility::Closed
    ));
    assert!(matches!(rb.board.time, Time::Paused(d) if d == 2 * SEC));
    rb.seek(0, 0);
    assert!(rb.board.fields.is_none());
    assert!(matches!(rb.board.time, Time::NotStarted));
}

#[test]
fn replay_board_advance_applies_due_clicks() {
    let mut rb = ReplayBoard::new(sample_file());
    // the clock has not started: nothing happens
    assert!(rb.advance(0, &TimeModifier::Normal).is_empty());
    rb.board.time.start(0);
    // at 1s the click (recorded at 2s) is not yet due
    rb.advance(SEC, &TimeModifier::Normal);
    assert_eq!(rb.next_click, 0);
    // at 3s it is
    let sounds = rb.advance(3 * SEC, &TimeModifier::Normal);
    assert_eq!(rb.next_click, 1);
    assert!(sounds.contains(&Sounds::Win));
}

#[test]
fn play_board_records_clicks_and_creates_replay() {
    let gen = PlayFieldGenerator { width: 8, height: 8, mine_count: 10 };
    let mut pb = PlayBoard::new(gen);
    let modifier = TimeModifier::Normal;
    assert!(pb.create_replay(0, &modifier).is_none());
    pb.reveal_at(&pos(0, 0), 0, &modifier);
    pb.flag(&pos(7, 7), SEC, &modifier);
    assert_eq!(pb.clicks.len(), 2);
    assert!(matches!(pb.clicks[0], Click::Reveal(p, _) if p == pos(0, 0)));
    assert!(matches!(pb.clicks[1], Click::Flag(p, _) if p == pos(7, 7)));
    if pb.board.still_playing() {
        assert!(pb.create_replay(SEC, &modifier).is_none());
    } else {
        let file = pb.create_replay(SEC, &modifier).unwrap();
        assert_eq!(file.size, (8, 8));
        assert_eq!(file.mines.len(), 10);
        assert_eq!(file.clicks.len(), 2);
    }
    pb.reset();
    assert!(pb.clicks.is_empty());
    assert!(pb.board.fields.is_none());
}

#[test]
fn board_emits_open_and_win_sounds() {
    let gen = minesweeper::field_generator::ReplayFieldGenerator {
        width: 5,
        height: 5,
        mines: vec![pos(4, 4)],
    };
    let mut b = Board::new(gen);
    assert!(b.still_playing());
    let sounds = b.reveal_at(&pos(0, 0), 0);
    assert_eq!(sounds, vec![Sounds::Open, Sounds::Win]);
    // decided: reveals and flags are silent no-ops
    assert!(b.reveal_at(&pos(4, 4), SEC).is_empty());
    assert!(b.flag(&pos(4, 4)).is_none());
}

#[test]
fn board_emits_flag_sounds() {
    // two mines in the last column leave (4,3) closed after the opening
    // flood, so the session stays undecided
    let gen = minesweeper::field_generator::ReplayFieldGenerator {
        width: 5,
        height: 5,
        mines: vec![pos(4, 4), pos(4, 2)],
    };
    let mut b = Board::new(gen);
    // no grid yet: flags do nothing
    assert!(b.flag(&pos(1, 1)).is_none());
    b.reveal_at(&pos(0, 0), 0);
    assert!(b.still_playing());
    assert_eq!(b.flag(&pos(4, 4)), Some(Sounds::Flag));
    assert_eq!(b.flag(&pos(4, 4)), Some(Sounds::Unflag));
}

#[test]
fn click_accessors() {
    let c = Click::Reveal(pos(1, 2), 7);
    assert_eq!(c.position(), pos(1, 2));
    assert_eq!(c.duration(), 7);
    let d = Click::Flag(pos(3, 4), 9);
    assert_eq!(d.position(), pos(3, 4));
    assert_eq!(d.duration(), 9);
}
