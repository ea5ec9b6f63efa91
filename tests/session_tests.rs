use minesweeper::{BoardError, Coordinates, GameState, Session, SAFETY_RADIUS};

fn at(col: i64, row: i64) -> Coordinates {
    Coordinates::new(col, row)
}

#[test]
fn game_state_defaults_to_pending() {
    assert_eq!(GameState::default(), GameState::Pending);
}

#[test]
fn new_session_is_pending() {
    let s = Session::new(15, 15, 40).unwrap();
    assert_eq!(s.state(), GameState::Pending);
    assert_eq!(s.mine_count(), 40);
    assert_eq!(s.safety_radius(), SAFETY_RADIUS);
    assert_eq!(SAFETY_RADIUS, 3);
    assert_eq!(s.map().width(), 15);
    let t = s.tile_snapshot(&at(3, 4)).unwrap();
    assert!(!t.contains_mine() && !t.is_flipped() && !t.is_marked());
    assert_eq!(s.tile_snapshot(&at(15, 0)).err(), Some(BoardError::OutOfBounds));
}

#[test]
fn session_refuses_too_many_mines() {
    // a first reveal in the centre of a 7 by 7 board keeps 25 tiles clear
    assert!(Session::new(7, 7, 24).is_ok());
    assert_eq!(Session::new(7, 7, 25).err(), Some(BoardError::TooManyMines));
    assert_eq!(Session::with_safety_radius(3, 3, 9, 0).err(), Some(BoardError::TooManyMines));
    assert!(Session::with_safety_radius(3, 3, 8, 0).is_ok());
}

#[test]
fn first_reveal_places_mines_away_from_it() {
    for _ in 0..20 {
        let mut s = Session::new(15, 15, 40).unwrap();
        let origin = at(2, 12);
        let revealed = s.reveal_tile(&origin).unwrap();
        assert!(!revealed.is_empty());
        assert_ne!(s.state(), GameState::Pending);
        assert_ne!(s.state(), GameState::Lost);
        let mut mines = 0;
        for row in 0..15 {
            for col in 0..15 {
                let c = at(col, row);
                if s.tile_snapshot(&c).unwrap().contains_mine() {
                    mines += 1;
                    assert!(c.manhattan_distance(&origin) > 3);
                }
            }
        }
        assert_eq!(mines, 40);
    }
}

#[test]
fn three_by_three_opens_in_one_reveal() {
    let mut s = Session::with_safety_radius(3, 3, 1, 0).unwrap();
    // free tiles away from (0, 0), row by row: pick 7 mines (2, 2)
    let revealed = s.reveal_tile_with(&at(0, 0), &vec![7]).unwrap();
    assert_eq!(revealed.len(), 8);
    assert!(revealed.iter().all(|r| !r.has_mine));
    assert!(s.tile_snapshot(&at(2, 2)).unwrap().contains_mine());
    assert!(!s.tile_snapshot(&at(2, 2)).unwrap().is_flipped());
    assert_eq!(s.state(), GameState::Won);
    // a finished game ignores commands
    assert!(s.reveal_tile(&at(2, 2)).unwrap().is_empty());
    assert_eq!(s.toggle_flag(&at(2, 2)), Ok(false));
    assert_eq!(s.state(), GameState::Won);
}

#[test]
fn revealing_a_mine_loses() {
    let mut s = Session::with_safety_radius(5, 1, 1, 0).unwrap();
    // free tiles away from (0, 0): columns 1 to 4; pick 1 mines column 2
    let first = s.reveal_tile_with(&at(0, 0), &vec![1]).unwrap();
    assert_eq!(first.len(), 2);
    assert_eq!(s.state(), GameState::Ongoing);
    let hit = s.reveal_tile(&at(2, 0)).unwrap();
    assert_eq!(hit.len(), 1);
    assert_eq!(hit[0].coordinates, at(2, 0));
    assert!(hit[0].has_mine);
    assert_eq!(s.state(), GameState::Lost);
    assert!(!s.tile_snapshot(&at(3, 0)).unwrap().is_flipped());
    assert!(s.reveal_tile(&at(4, 0)).unwrap().is_empty());
    assert_eq!(s.state(), GameState::Lost);
}

#[test]
fn revealing_every_safe_tile_wins() {
    let mut s = Session::with_safety_radius(5, 1, 1, 0).unwrap();
    s.reveal_tile_with(&at(0, 0), &vec![1]).unwrap();
    assert_eq!(s.state(), GameState::Ongoing);
    let last = s.reveal_tile(&at(4, 0)).unwrap();
    assert_eq!(last.len(), 2);
    assert_eq!(s.state(), GameState::Won);
}

#[test]
fn mine_on_the_last_turn_still_loses() {
    let mut s = Session::with_safety_radius(5, 1, 1, 0).unwrap();
    s.reveal_tile_with(&at(0, 0), &vec![1]).unwrap();
    s.reveal_tile(&at(3, 0)).unwrap();
    assert_eq!(s.state(), GameState::Ongoing);
    s.reveal_tile(&at(2, 0)).unwrap();
    assert_eq!(s.state(), GameState::Lost);
}

#[test]
fn session_reveal_twice_reports_nothing() {
    let mut s = Session::with_safety_radius(5, 1, 1, 0).unwrap();
    let first = s.reveal_tile_with(&at(0, 0), &vec![1]).unwrap();
    assert_eq!(first.len(), 2);
    let again = s.reveal_tile(&at(0, 0)).unwrap();
    assert!(again.is_empty());
    assert_eq!(s.state(), GameState::Ongoing);
}

#[test]
fn flags_work_before_and_during_the_game() {
    let mut s = Session::with_safety_radius(5, 1, 1, 0).unwrap();
    assert_eq!(s.toggle_flag(&at(4, 0)), Ok(true));
    assert!(s.tile_snapshot(&at(4, 0)).unwrap().is_marked());
    assert_eq!(s.state(), GameState::Pending);
    s.reveal_tile_with(&at(0, 0), &vec![1]).unwrap();
    assert_eq!(s.toggle_flag(&at(0, 0)), Ok(false));
    assert_eq!(s.toggle_flag(&at(2, 0)), Ok(true));
    assert_eq!(s.toggle_flag(&at(9, 0)), Err(BoardError::OutOfBounds));
    // a flagged tile is not revealed
    assert!(s.reveal_tile(&at(4, 0)).unwrap().is_empty());
    assert_eq!(s.toggle_flag(&at(4, 0)), Ok(true));
    assert!(!s.tile_snapshot(&at(4, 0)).unwrap().is_marked());
}

#[test]
fn chord_in_a_session() {
    let mut s = Session::with_safety_radius(5, 1, 1, 0).unwrap();
    // before the game starts the chord does nothing
    assert!(s.chord_reveal(&at(1, 0)).unwrap().is_empty());
    s.reveal_tile_with(&at(0, 0), &vec![1]).unwrap();
    // (1, 0) shows 1 and has no flag around it yet
    assert!(s.chord_reveal(&at(1, 0)).unwrap().is_empty());
    s.toggle_flag(&at(2, 0)).unwrap();
    // (1, 0)'s other neighbour is revealed already, so nothing new opens
    assert!(s.chord_reveal(&at(1, 0)).unwrap().is_empty());
    assert_eq!(s.state(), GameState::Ongoing);
    assert_eq!(s.chord_reveal(&at(7, 0)), Err(BoardError::OutOfBounds));
}

#[test]
fn chord_on_a_wrong_flag_loses() {
    let mut s = Session::with_safety_radius(5, 1, 1, 0).unwrap();
    s.reveal_tile_with(&at(0, 0), &vec![1]).unwrap();
    s.reveal_tile(&at(3, 0)).unwrap();
    // (3, 0) shows 1; a flag on (4, 0) satisfies it, so the chord opens (2, 0)
    s.toggle_flag(&at(4, 0)).unwrap();
    let revealed = s.chord_reveal(&at(3, 0)).unwrap();
    assert_eq!(revealed.len(), 1);
    assert!(revealed[0].has_mine);
    assert_eq!(s.state(), GameState::Lost);
}

#[test]
fn chord_that_finishes_the_board_wins() {
    let mut s = Session::with_safety_radius(5, 1, 1, 0).unwrap();
    s.reveal_tile_with(&at(0, 0), &vec![1]).unwrap();
    s.reveal_tile(&at(3, 0)).unwrap();
    s.toggle_flag(&at(2, 0)).unwrap();
    let revealed = s.chord_reveal(&at(3, 0)).unwrap();
    assert_eq!(revealed.len(), 1);
    assert_eq!(revealed[0].coordinates, at(4, 0));
    assert_eq!(s.state(), GameState::Won);
}

#[test]
fn out_of_bounds_reveal_is_refused() {
    let mut s = Session::with_safety_radius(4, 4, 2, 0).unwrap();
    assert_eq!(s.reveal_tile(&at(4, 0)), Err(BoardError::OutOfBounds));
    assert_eq!(s.reveal_tile_with(&at(-1, 0), &vec![0, 0]), Err(BoardError::OutOfBounds));
    assert_eq!(s.state(), GameState::Pending);
}
