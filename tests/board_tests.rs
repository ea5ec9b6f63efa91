use minesweeper::{BoardError, Coordinates, Shade, Tile, TileLook, TileMap};

fn at(col: i64, row: i64) -> Coordinates {
    Coordinates::new(col, row)
}

fn mines_on(map: &TileMap) -> Vec<Coordinates> {
    let mut found = Vec::new();
    for row in 0..map.height() {
        for col in 0..map.width() {
            if map.get(&at(col, row)).unwrap().contains_mine() {
                found.push(at(col, row));
            }
        }
    }
    found
}

#[test]
fn coordinates_new_keeps_fields() {
    let c = Coordinates::new(4, 7);
    assert_eq!(c.col, 4);
    assert_eq!(c.row, 7);
}

#[test]
fn manhattan_distance_sums_differences() {
    assert_eq!(at(0, 0).manhattan_distance(&at(3, 4)), 7);
    assert_eq!(at(3, 4).manhattan_distance(&at(0, 0)), 7);
    assert_eq!(at(-2, 5).manhattan_distance(&at(2, -5)), 14);
    assert_eq!(at(1, 1).manhattan_distance(&at(1, 1)), 0);
}

#[test]
fn shade_alternates() {
    assert_eq!(Shade::from_coordinates(0, 0), Shade::Light);
    assert_eq!(Shade::from_coordinates(0, 1), Shade::Dark);
    assert_eq!(Shade::from_coordinates(3, 2), Shade::Dark);
    assert_eq!(Shade::from_coordinates(4, 2), Shade::Light);
}

#[test]
fn tile_mine_is_set_once() {
    let mut t = Tile::new(Shade::Light);
    assert!(!t.contains_mine());
    assert!(t.set_mine());
    assert!(t.contains_mine());
    assert!(!t.set_mine());
    assert!(t.contains_mine());
}

#[test]
fn tile_flip_refuses_flagged_and_flipped() {
    let mut t = Tile::new(Shade::Dark);
    assert!(t.toggle_mark());
    assert!(t.is_marked());
    assert!(!t.flip());
    assert!(!t.is_flipped());
    assert!(t.toggle_mark());
    assert!(!t.is_marked());
    assert!(t.flip());
    assert!(t.is_flipped());
    assert!(!t.flip());
    assert!(!t.toggle_mark());
    assert!(!t.is_marked());
}

#[test]
fn tile_number_zero_is_none() {
    let mut t = Tile::new(Shade::Light);
    t.set_number(0);
    assert_eq!(t.number(), None);
    t.set_number(3);
    assert_eq!(t.number(), Some(3));
}

#[test]
fn tile_hover_and_look() {
    let mut t = Tile::new(Shade::Dark);
    assert!(t.is_hoverable());
    assert_eq!(t.look(), TileLook::Unflipped(Shade::Dark));
    t.toggle_mark();
    assert!(!t.is_hoverable());
    assert_eq!(t.look(), TileLook::Marked);
    t.toggle_mark();
    t.set_mine();
    t.flip();
    assert!(!t.is_hoverable());
    assert_eq!(t.look(), TileLook::Mine);
    let mut u = Tile::new(Shade::Light);
    u.flip();
    assert_eq!(u.look(), TileLook::Flipped(Shade::Light));
    assert_eq!(u.shade(), Shade::Light);
}

#[test]
fn new_map_is_empty() {
    let map = TileMap::new(4, 3);
    assert_eq!(map.width(), 4);
    assert_eq!(map.height(), 3);
    for row in 0..3 {
        for col in 0..4 {
            let t = map.get(&at(col, row)).unwrap();
            assert!(!t.contains_mine());
            assert!(!t.is_flipped());
            assert!(!t.is_marked());
            assert_eq!(t.number(), None);
            assert_eq!(t.shade(), Shade::from_coordinates(row, col));
        }
    }
}

#[test]
fn out_of_bounds_is_refused() {
    let mut map = TileMap::new(3, 3);
    assert_eq!(map.get(&at(3, 0)).err(), Some(BoardError::OutOfBounds));
    assert_eq!(map.get(&at(0, -1)).err(), Some(BoardError::OutOfBounds));
    assert_eq!(map.get_neighbors(&at(-1, 0)), Err(BoardError::OutOfBounds));
    assert_eq!(map.can_reveal_neighbors(&at(0, 3)), Err(BoardError::OutOfBounds));
    assert_eq!(map.reveal_tile(&at(5, 5)), Err(BoardError::OutOfBounds));
    assert_eq!(map.reveal_neighbors(&at(5, 5)), Err(BoardError::OutOfBounds));
    assert_eq!(map.toggle_mark(&at(3, 3)), Err(BoardError::OutOfBounds));
    assert_eq!(map.place_mines(&at(3, 1), 0, &vec![0]), Err(BoardError::OutOfBounds));
    assert_eq!(map.generate_mines(&at(3, 1), 1, 0), Err(BoardError::OutOfBounds));
    assert!(mines_on(&map).is_empty());
}

#[test]
fn neighbors_in_row_major_order() {
    let map = TileMap::new(3, 3);
    assert_eq!(
        map.get_neighbors(&at(1, 1)).unwrap(),
        vec![at(0, 0), at(1, 0), at(2, 0), at(0, 1), at(2, 1), at(0, 2), at(1, 2), at(2, 2)]
    );
    assert_eq!(map.get_neighbors(&at(0, 0)).unwrap(), vec![at(1, 0), at(0, 1), at(1, 1)]);
    assert_eq!(
        map.get_neighbors(&at(1, 0)).unwrap(),
        vec![at(0, 0), at(2, 0), at(0, 1), at(1, 1), at(2, 1)]
    );
    let single = TileMap::new(1, 1);
    assert!(single.get_neighbors(&at(0, 0)).unwrap().is_empty());
}

#[test]
fn place_mines_by_picks() {
    let mut map = TileMap::new(3, 3);
    // free tiles away from (0, 0) with radius 0, row by row: the eight others
    assert_eq!(map.place_mines(&at(0, 0), 0, &vec![7]), Ok(()));
    assert_eq!(mines_on(&map), vec![at(2, 2)]);
    assert_eq!(map.get(&at(1, 1)).unwrap().number(), Some(1));
    assert_eq!(map.get(&at(2, 1)).unwrap().number(), Some(1));
    assert_eq!(map.get(&at(1, 2)).unwrap().number(), Some(1));
    assert_eq!(map.get(&at(0, 0)).unwrap().number(), None);
    assert_eq!(map.get(&at(2, 2)).unwrap().number(), None);
}

#[test]
fn place_mines_picks_wrap_and_leave_the_list() {
    let mut map = TileMap::new(3, 1);
    // free tiles away from (0, 0): (1, 0) and (2, 0); 5 % 2 picks the second,
    // then 0 % 1 picks the one left
    assert_eq!(map.place_mines(&at(0, 0), 0, &vec![5, 0]), Ok(()));
    assert_eq!(mines_on(&map), vec![at(1, 0), at(2, 0)]);
    assert_eq!(map.get(&at(0, 0)).unwrap().number(), Some(1));
    assert_eq!(map.get(&at(1, 0)).unwrap().number(), Some(1));
    assert_eq!(map.get(&at(2, 0)).unwrap().number(), Some(1));
}

#[test]
fn place_mines_refuses_too_many() {
    let mut map = TileMap::new(3, 3);
    // radius 1 around the centre leaves the four corners
    assert_eq!(map.place_mines(&at(1, 1), 1, &vec![0, 0, 0, 0, 0]), Err(BoardError::TooManyMines));
    assert!(mines_on(&map).is_empty());
    assert_eq!(map.place_mines(&at(1, 1), 1, &vec![0, 0, 0, 0]), Ok(()));
    assert_eq!(mines_on(&map), vec![at(0, 0), at(2, 0), at(0, 2), at(2, 2)]);
    assert_eq!(map.get(&at(1, 1)).unwrap().number(), Some(4));
    assert_eq!(map.get(&at(1, 0)).unwrap().number(), Some(2));
}

#[test]
fn generate_mines_keeps_the_safe_area() {
    for _ in 0..20 {
        let mut map = TileMap::new(15, 15);
        let origin = at(7, 7);
        assert_eq!(map.generate_mines(&origin, 40, 3), Ok(()));
        let mines = mines_on(&map);
        assert_eq!(mines.len(), 40);
        for m in &mines {
            assert!(m.manhattan_distance(&origin) > 3);
        }
    }
}

#[test]
fn generate_mines_refuses_too_many() {
    let mut map = TileMap::new(3, 3);
    assert_eq!(map.generate_mines(&at(1, 1), 5, 1), Err(BoardError::TooManyMines));
    assert!(mines_on(&map).is_empty());
    assert_eq!(map.generate_mines(&at(1, 1), 4, 1), Ok(()));
    assert_eq!(mines_on(&map).len(), 4);
}

#[test]
fn numbers_count_adjacent_mines() {
    for _ in 0..10 {
        let mut map = TileMap::new(8, 6);
        map.generate_mines(&at(0, 0), 12, 1).unwrap();
        for row in 0..6 {
            for col in 0..8 {
                let c = at(col, row);
                let count = map
                    .get_neighbors(&c)
                    .unwrap()
                    .iter()
                    .filter(|n| map.get(n).unwrap().contains_mine())
                    .count();
                let expected = if count == 0 { None } else { Some(count) };
                assert_eq!(map.get(&c).unwrap().number(), expected);
            }
        }
    }
}

#[test]
fn update_tile_numbers_by_itself() {
    let mut map = TileMap::new(3, 2);
    map.place_mines(&at(0, 0), 1, &vec![1]).unwrap();
    // free tiles away from (0, 0) with radius 1: (2, 0), (1, 1), (2, 1)
    assert_eq!(mines_on(&map), vec![at(1, 1)]);
    map.update_tile_numbers();
    assert_eq!(map.get(&at(0, 0)).unwrap().number(), Some(1));
    assert_eq!(map.get(&at(2, 1)).unwrap().number(), Some(1));
    assert_eq!(map.get(&at(1, 1)).unwrap().number(), None);
}

#[test]
fn chord_needs_exact_flag_count() {
    let mut map = TileMap::new(3, 3);
    // radius 1 around the centre: mines on corners (0, 0) and (2, 0)
    map.place_mines(&at(1, 1), 1, &vec![0, 0]).unwrap();
    assert_eq!(map.get(&at(1, 0)).unwrap().number(), Some(2));
    assert_eq!(map.can_reveal_neighbors(&at(1, 0)), Ok(false));
    map.toggle_mark(&at(0, 0)).unwrap();
    assert_eq!(map.can_reveal_neighbors(&at(1, 0)), Ok(false));
    assert_eq!(map.reveal_neighbors(&at(1, 0)), Ok(vec![]));
    map.toggle_mark(&at(2, 0)).unwrap();
    assert_eq!(map.can_reveal_neighbors(&at(1, 0)), Ok(true));
    map.toggle_mark(&at(1, 1)).unwrap();
    assert_eq!(map.can_reveal_neighbors(&at(1, 0)), Ok(false));
    map.toggle_mark(&at(1, 1)).unwrap();
    // a tile with no number never chords
    assert_eq!(map.can_reveal_neighbors(&at(1, 2)), Ok(false));
}

#[test]
fn chord_reveals_unflagged_neighbors() {
    let mut map = TileMap::new(3, 3);
    map.place_mines(&at(1, 1), 1, &vec![0, 0]).unwrap();
    map.toggle_mark(&at(0, 0)).unwrap();
    map.toggle_mark(&at(2, 0)).unwrap();
    let revealed = map.reveal_neighbors(&at(1, 0)).unwrap();
    let mut coords: Vec<(i64, i64)> = revealed.iter().map(|r| (r.coordinates.col, r.coordinates.row)).collect();
    coords.sort();
    // the flags stay; the three tiles below (1, 0) all show numbers, so
    // nothing spreads to the bottom row
    assert_eq!(coords, vec![(0, 1), (1, 1), (2, 1)]);
    assert!(!map.get(&at(1, 2)).unwrap().is_flipped());
    assert!(revealed.iter().all(|r| !r.has_mine));
    assert!(map.get(&at(0, 0)).unwrap().is_marked());
    assert!(!map.get(&at(0, 0)).unwrap().is_flipped());
}

#[test]
fn flood_stops_at_numbers() {
    let mut map = TileMap::new(5, 1);
    // free tiles away from (0, 0): columns 1 to 4; pick 1 mines column 2
    map.place_mines(&at(0, 0), 0, &vec![1]).unwrap();
    let revealed = map.reveal_tile(&at(0, 0)).unwrap();
    assert_eq!(revealed.len(), 2);
    assert_eq!(revealed[0].coordinates, at(0, 0));
    assert_eq!(revealed[0].number, None);
    assert_eq!(revealed[1].coordinates, at(1, 0));
    assert_eq!(revealed[1].number, Some(1));
    assert!(!map.get(&at(3, 0)).unwrap().is_flipped());
    assert!(!map.all_safe_revealed());
}

#[test]
fn reveal_twice_reports_nothing() {
    let mut map = TileMap::new(4, 4);
    let first = map.reveal_tile(&at(1, 2)).unwrap();
    assert_eq!(first.len(), 16);
    let second = map.reveal_tile(&at(1, 2)).unwrap();
    assert!(second.is_empty());
}

#[test]
fn open_board_reveals_every_tile_once() {
    let mut map = TileMap::new(5, 4);
    let revealed = map.reveal_tile(&at(3, 1)).unwrap();
    assert_eq!(revealed.len(), 20);
    let mut coords: Vec<(i64, i64)> = revealed.iter().map(|r| (r.coordinates.col, r.coordinates.row)).collect();
    coords.sort();
    coords.dedup();
    assert_eq!(coords.len(), 20);
    assert!(map.all_safe_revealed());
    // the stack is last in, first out: after the seed comes its last neighbour
    assert_eq!(revealed[0].coordinates, at(3, 1));
    assert_eq!(revealed[1].coordinates, at(4, 2));
}

#[test]
fn flagged_seed_is_not_revealed() {
    let mut map = TileMap::new(2, 2);
    assert_eq!(map.toggle_mark(&at(0, 0)), Ok(true));
    assert!(map.reveal_tile(&at(0, 0)).unwrap().is_empty());
    // a flood from elsewhere leaves the flag alone
    let revealed = map.reveal_tile(&at(1, 1)).unwrap();
    assert_eq!(revealed.len(), 3);
    assert!(!map.get(&at(0, 0)).unwrap().is_flipped());
    assert_eq!(map.toggle_mark(&at(1, 1)), Ok(false));
}

#[test]
fn mine_hit_reports_one_tile() {
    let mut map = TileMap::new(3, 3);
    map.place_mines(&at(0, 0), 2, &vec![0]).unwrap();
    // radius 2 around (0, 0) leaves (2, 1), (1, 2), (2, 2); pick 0 mines (2, 1)
    assert_eq!(mines_on(&map), vec![at(2, 1)]);
    let revealed = map.reveal_tile(&at(2, 1)).unwrap();
    assert_eq!(revealed.len(), 1);
    assert_eq!(revealed[0].coordinates, at(2, 1));
    assert!(revealed[0].has_mine);
    assert!(!map.get(&at(2, 0)).unwrap().is_flipped());
}

#[test]
fn generate_mines_draws_different_layouts() {
    // with every draw at the top of its range, each pick would fall back to
    // the first free tile, giving the same layout every time
    let origin = at(0, 0);
    let mut first_free = TileMap::new(10, 10);
    first_free.place_mines(&origin, 3, &vec![0; 20]).unwrap();
    let fixed = mines_on(&first_free);
    let mut layouts = Vec::new();
    for _ in 0..10 {
        let mut map = TileMap::new(10, 10);
        map.generate_mines(&origin, 20, 3).unwrap();
        layouts.push(mines_on(&map));
    }
    assert!(layouts.iter().any(|l| *l != fixed));
    assert!(layouts.iter().any(|l| *l != layouts[0]));
}
