use minesweeper::field::Field;
use minesweeper::field_generator::FieldGenerator;
use minesweeper::field_generator::new_game_settings;
use minesweeper::field_generator::PlayFieldGenerator;
use minesweeper::field_generator::ReplayFieldGenerator;
use minesweeper::fields::Fields;
use minesweeper::position::Position;
use minesweeper::tile::Tile;
use minesweeper::utils::has_unique_elements;
use minesweeper::visibility::Visibility;
use minesweeper::won::Won;

fn pos(x: usize, y: usize) -> Position {
    Position { x, y }
}

fn replay_fields(width: usize, height: usize, mines: Vec<Position>) -> Fields {
    let ma = mines.len();
    let gen = ReplayFieldGenerator { width, height, mines };
    let grid = gen.generate(&pos(0, 0));
    Fields::new(width, height, ma, grid)
}

fn count_mine_neighbors_naive(grid: &[Field], width: usize, height: usize, x: usize, y: usize) -> usize {
    let mut c = 0;
    for dx in -1i64..=1 {
        for dy in -1i64..=1 {
            if dx == 0 && dy == 0 {
                continue;
            }
            let nx = x as i64 + dx;
            let ny = y as i64 + dy;
            if nx >= 0 && ny >= 0 && (nx as usize) < width && (ny as usize) < height {
                if matches!(grid[ny as usize * width + nx as usize].tile, Tile::Mine) {
                    c += 1;
                }
            }
        }
    }
    c
}

#[test]
fn position_new_respects_bounds() {
    assert!(Position::new(4, 4, 5, 5).is_some());
    assert!(Position::new(5, 4, 5, 5).is_none());
    assert!(Position::new(4, 5, 5, 5).is_none());
    let p = Position::new(2, 3, 5, 5).unwrap();
    assert_eq!(p.x, 2);
    assert_eq!(p.y, 3);
}

#[test]
fn position_index_round_trip() {
    for idx in 0..35 {
        let p = Position::from_index(idx, 7);
        assert_eq!(p.index(7, 5), idx);
    }
    assert_eq!(pos(3, 2).index(7, 5), 17);
}

#[test]
fn position_is_near() {
    assert!(pos(3, 3).is_near(&pos(2, 4)));
    assert!(pos(3, 3).is_near(&pos(3, 3)));
    assert!(!pos(3, 3).is_near(&pos(5, 3)));
    assert!(!pos(0, 0).is_near(&pos(2, 2)));
}

#[test]
fn position_neighbors_counts() {
    assert_eq!(pos(0, 0).neighbors(5, 5).len(), 3);
    assert_eq!(pos(4, 4).neighbors(5, 5).len(), 3);
    assert_eq!(pos(2, 0).neighbors(5, 5).len(), 5);
    assert_eq!(pos(2, 2).neighbors(5, 5).len(), 8);
    let n = pos(1, 1).neighbors(3, 3);
    assert_eq!(n.len(), 8);
    assert!(!n.contains(&pos(1, 1)));
}

#[test]
fn field_transitions() {
    let mut f = Field::new();
    assert!(f.is_closed());
    assert!(matches!(f.get_tile(), Tile::Empty));
    f.set_number(3);
    assert!(matches!(f.get_tile(), Tile::Number(3)));
    f.set_number(0);
    assert!(matches!(f.get_tile(), Tile::Empty));
    f.set_mine();
    assert!(f.is_mine());
    f.flag();
    assert!(f.is_flagged());
    f.close();
    assert!(f.is_closed());
    f.open();
    assert!(f.is_open());
    assert!(matches!(f.get_visibility(), Visibility::Open));
}

#[test]
fn won_transitions() {
    let mut w = Won::Playing;
    assert!(w.still_playing());
    w.win();
    assert!(!w.still_playing());
    let mut l = Won::Playing;
    l.lose(pos(1, 2));
    assert!(matches!(l, Won::Lost(p) if p == pos(1, 2)));
}

#[test]
fn has_unique_elements_works() {
    assert!(has_unique_elements(&vec![pos(0, 0), pos(1, 0), pos(0, 1)]));
    assert!(!has_unique_elements(&vec![pos(0, 0), pos(1, 0), pos(0, 0)]));
    assert!(has_unique_elements(&vec![]));
}

#[test]
fn random_generation_mine_count_and_exclusion() {
    let gen = PlayFieldGenerator { width: 8, height: 8, mine_count: 10 };
    let exclude = pos(3, 3);
    for _ in 0..5 {
        let grid = gen.generate(&exclude);
        assert_eq!(grid.len(), 64);
        let mines: Vec<usize> =
            (0..64).filter(|&i| matches!(grid[i].tile, Tile::Mine)).collect();
        assert_eq!(mines.len(), 10);
        for &i in &mines {
            let p = Position::from_index(i, 8);
            assert!(!exclude.is_near(&p), "mine at {:?} is near the exclusion", p);
        }
        for i in 0..64 {
            assert!(matches!(grid[i].visibility, Visibility::Closed));
            let p = Position::from_index(i, 8);
            let c = count_mine_neighbors_naive(&grid, 8, 8, p.x, p.y);
            match grid[i].tile {
                Tile::Mine => {}
                Tile::Empty => assert_eq!(c, 0),
                Tile::Number(n) => assert_eq!(n as usize, c),
            }
        }
    }
}

#[test]
fn replay_generation_places_listed_mines() {
    let grid = ReplayFieldGenerator {
        width: 4,
        height: 4,
        mines: vec![pos(0, 0), pos(3, 3)],
    }
    .generate(&pos(1, 1));
    for i in 0..16 {
        let p = Position::from_index(i, 4);
        let is_mine = matches!(grid[i].tile, Tile::Mine);
        assert_eq!(is_mine, p == pos(0, 0) || p == pos(3, 3));
    }
    assert!(matches!(grid[pos(1, 1).index(4, 4)].tile, Tile::Number(1)));
    assert!(matches!(grid[pos(2, 2).index(4, 4)].tile, Tile::Number(1)));
    assert!(matches!(grid[pos(1, 0).index(4, 4)].tile, Tile::Number(1)));
    assert!(matches!(grid[pos(2, 0).index(4, 4)].tile, Tile::Empty));
}

#[test]
fn five_by_five_first_click_cascades_to_win() {
    let mut f = replay_fields(5, 5, vec![pos(4, 4)]);
    let r = f.reveal_at(&pos(0, 0), true);
    assert_eq!(r, Some(false));
    for i in 0..25 {
        let p = Position::from_index(i, 5);
        if p == pos(4, 4) {
            assert!(matches!(f.fields[i].visibility, Visibility::Closed));
        } else {
            assert!(
                matches!(f.fields[i].visibility, Visibility::Open),
                "cell {:?} should have been flooded open",
                p
            );
        }
    }
    assert_eq!(f.revealed, 24);
    f.check_won();
    assert!(matches!(f.won, Won::Won));
    // once won, further calls are no-ops
    assert_eq!(f.reveal_at(&pos(4, 4), true), None);
    assert_eq!(f.flag(&pos(4, 4)), None);
}

#[test]
fn cascade_stops_at_numbered_border() {
    // mine in a corner: the flood from the far corner opens everything
    // except the mine itself, and the numbered border is opened with it
    let mut f = replay_fields(3, 3, vec![pos(0, 0)]);
    let r = f.reveal_at(&pos(2, 2), true);
    assert_eq!(r, Some(false));
    assert!(matches!(f.fields[0].visibility, Visibility::Closed));
    for i in 1..9 {
        assert!(matches!(f.fields[i].visibility, Visibility::Open));
    }
    assert!(matches!(f.fields[pos(1, 1).index(3, 3)].tile, Tile::Number(1)));
}

#[test]
fn cascade_skips_flagged_cells() {
    let mut f = replay_fields(5, 5, vec![pos(4, 4)]);
    assert_eq!(f.flag(&pos(2, 2)), Some(true));
    f.reveal_at(&pos(0, 0), true);
    // the flag blocks that cell but not the flood around it
    assert!(matches!(
        f.fields[pos(2, 2).index(5, 5)].visibility,
        Visibility::Flagged
    ));
    assert!(matches!(
        f.fields[pos(3, 3).index(5, 5)].visibility,
        Visibility::Open
    ));
    assert_eq!(f.revealed, 23);
}

#[test]
fn revealing_mine_loses_and_opens_unflagged_mines() {
    let mut f = replay_fields(4, 4, vec![pos(0, 0), pos(3, 3), pos(0, 3)]);
    assert_eq!(f.flag(&pos(3, 3)), Some(true));
    let r = f.reveal_at(&pos(0, 0), true);
    assert_eq!(r, Some(false));
    assert!(matches!(f.won, Won::Lost(p) if p == pos(0, 0)));
    assert!(matches!(f.fields[pos(0, 0).index(4, 4)].visibility, Visibility::Open));
    assert!(matches!(f.fields[pos(0, 3).index(4, 4)].visibility, Visibility::Open));
    // the correctly flagged mine stays flagged
    assert!(matches!(
        f.fields[pos(3, 3).index(4, 4)].visibility,
        Visibility::Flagged
    ));
    // non-mine cells are not opened by the loss
    assert!(matches!(
        f.fields[pos(2, 2).index(4, 4)].visibility,
        Visibility::Closed
    ));
    // session decided: everything is a no-op now
    assert_eq!(f.reveal_at(&pos(1, 1), true), None);
    assert_eq!(f.flag(&pos(1, 1)), None);
}

#[test]
fn chord_reveal_opens_closed_neighbors() {
    let mut f = replay_fields(3, 3, vec![pos(0, 0)]);
    assert_eq!(f.reveal_at(&pos(1, 1), true), Some(false));
    assert_eq!(f.flag(&pos(0, 0)), Some(true));
    let r = f.reveal_at(&pos(1, 1), true);
    assert_eq!(r, Some(true));
    for i in 1..9 {
        assert!(matches!(f.fields[i].visibility, Visibility::Open));
    }
    f.check_won();
    assert!(matches!(f.won, Won::Won));
}

#[test]
fn chord_reveal_mismatched_flags_is_noop() {
    let mut f = replay_fields(3, 3, vec![pos(0, 0)]);
    assert_eq!(f.reveal_at(&pos(1, 1), true), Some(false));
    // no flags at all: nothing happens
    assert_eq!(f.reveal_at(&pos(1, 1), true), None);
    // two flags against a 1: nothing happens either
    f.flag(&pos(0, 0));
    f.flag(&pos(1, 0));
    assert_eq!(f.reveal_at(&pos(1, 1), true), None);
    assert!(matches!(
        f.fields[pos(2, 2).index(3, 3)].visibility,
        Visibility::Closed
    ));
}

#[test]
fn chord_reveal_non_primary_is_noop() {
    let mut f = replay_fields(3, 3, vec![pos(0, 0)]);
    f.reveal_at(&pos(1, 1), true);
    f.flag(&pos(0, 0));
    assert_eq!(f.reveal_at(&pos(1, 1), false), None);
}

#[test]
fn flag_toggle_restores_counter() {
    let mut f = replay_fields(4, 4, vec![pos(0, 0), pos(3, 3)]);
    let before = f.mines.number;
    assert_eq!(before, 2);
    assert_eq!(f.flag(&pos(1, 1)), Some(true));
    assert_eq!(f.mines.number, before - 1);
    assert_eq!(f.flag(&pos(1, 1)), Some(false));
    assert_eq!(f.mines.number, before);
    assert!(matches!(
        f.fields[pos(1, 1).index(4, 4)].visibility,
        Visibility::Closed
    ));
}

#[test]
fn over_flagging_goes_negative() {
    let mut f = replay_fields(3, 3, vec![pos(0, 0)]);
    f.flag(&pos(1, 1));
    f.flag(&pos(2, 2));
    assert_eq!(f.mines.number, -1);
}

#[test]
fn chord_flag_flags_remaining_closed_neighbors() {
    let mut f = replay_fields(3, 3, vec![pos(0, 0)]);
    // flood from the far corner: only the mine stays closed
    f.reveal_at(&pos(2, 2), true);
    // the 1 at (1,1) has exactly one not-open neighbor, which is closed
    let r = f.flag(&pos(1, 1));
    assert_eq!(r, Some(true));
    assert!(matches!(
        f.fields[pos(0, 0).index(3, 3)].visibility,
        Visibility::Flagged
    ));
    assert_eq!(f.mines.number, 0);
}

#[test]
fn chord_flag_mismatch_is_noop() {
    let mut f = replay_fields(3, 3, vec![pos(0, 0)]);
    f.reveal_at(&pos(1, 1), true);
    // 8 not-open neighbors against a 1: nothing happens
    assert_eq!(f.flag(&pos(1, 1)), None);
}

#[test]
fn win_requires_all_non_mines_revealed() {
    let mut f = replay_fields(3, 3, vec![pos(0, 0), pos(2, 0)]);
    f.reveal_at(&pos(0, 2), true);
    f.check_won();
    assert!(f.won.still_playing());
    assert_eq!(f.revealed, 6);
    f.reveal_at(&pos(1, 0), true);
    f.check_won();
    assert!(matches!(f.won, Won::Won));
}

#[test]
fn flagging_non_mines_neither_triggers_nor_blocks_win() {
    let mut f = replay_fields(3, 3, vec![pos(0, 0), pos(2, 0)]);
    f.reveal_at(&pos(0, 2), true);
    // one non-mine cell left; flagging it (or anything) must not decide the game
    assert_eq!(f.flag(&pos(1, 0)), Some(true));
    f.check_won();
    assert!(f.won.still_playing());
    // removing the flag restores the path to the win
    assert_eq!(f.flag(&pos(1, 0)), Some(false));
    f.reveal_at(&pos(1, 0), true);
    f.check_won();
    assert!(matches!(f.won, Won::Won));
}

#[test]
fn new_game_settings_clamps_and_refuses() {
    // mine counts beyond capacity are clamped to cells minus the safe zone
    let g = new_game_settings(5, 5, 100).unwrap();
    assert_eq!(g.mine_count, 16);
    // ordinary requests pass through unchanged
    let g2 = new_game_settings(8, 8, 10).unwrap();
    assert_eq!((g2.width, g2.height, g2.mine_count), (8, 8, 10));
    // boards under the 5x5 minimum are refused
    assert!(new_game_settings(4, 8, 5).is_none());
    assert!(new_game_settings(8, 4, 5).is_none());
}
