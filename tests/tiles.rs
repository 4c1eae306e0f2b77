use red_center::{Tile, TileColor, TileId, TileSuit};

#[test]
fn index_round_trips_for_all_identities() {
    for i in 0..34usize {
        let t = TileId::from_index(i);
        assert_eq!(t.to_index(), i);
        assert_eq!(TileId::from_index(t.to_index()), t);
    }
}

#[test]
fn index_bands() {
    assert_eq!(TileId { suit: TileSuit::Man, value: 1 }.to_index(), 0);
    assert_eq!(TileId { suit: TileSuit::Pin, value: 1 }.to_index(), 9);
    assert_eq!(TileId { suit: TileSuit::Sou, value: 9 }.to_index(), 26);
    assert_eq!(TileId { suit: TileSuit::Wind, value: 1 }.to_index(), 27);
    assert_eq!(TileId { suit: TileSuit::Dragon, value: 3 }.to_index(), 33);
    assert_eq!(TileId::from_index(30), TileId { suit: TileSuit::Wind, value: 4 });
    assert_eq!(TileId::from_index(31), TileId { suit: TileSuit::Dragon, value: 1 });
}

#[test]
fn classification() {
    let east = TileId { suit: TileSuit::Wind, value: 1 };
    let one = TileId { suit: TileSuit::Man, value: 1 };
    let five = TileId { suit: TileSuit::Sou, value: 5 };
    let nine = TileId { suit: TileSuit::Pin, value: 9 };
    assert!(east.is_honor() && !east.is_simple() && !east.is_terminal());
    assert!(!one.is_honor() && !one.is_simple() && one.is_terminal());
    assert!(!five.is_honor() && five.is_simple() && !five.is_terminal());
    assert!(nine.is_terminal());
}

#[test]
fn labels() {
    assert_eq!(TileId { suit: TileSuit::Man, value: 3 }.label(), "3万");
    assert_eq!(TileId { suit: TileSuit::Pin, value: 9 }.label(), "9筒");
    assert_eq!(TileId { suit: TileSuit::Sou, value: 1 }.label(), "1条");
    assert_eq!(TileId { suit: TileSuit::Wind, value: 1 }.label(), "东");
    assert_eq!(TileId { suit: TileSuit::Wind, value: 4 }.label(), "北");
    assert_eq!(TileId { suit: TileSuit::Dragon, value: 2 }.label(), "发");
    assert_eq!(TileId { suit: TileSuit::Dragon, value: 3 }.label(), "白");
}

#[test]
fn colors() {
    assert_eq!(TileId { suit: TileSuit::Man, value: 3 }.suit_color(), TileColor::Red);
    assert_eq!(TileId { suit: TileSuit::Pin, value: 3 }.suit_color(), TileColor::Blue);
    assert_eq!(TileId { suit: TileSuit::Sou, value: 3 }.suit_color(), TileColor::Green);
    assert_eq!(TileId { suit: TileSuit::Wind, value: 2 }.suit_color(), TileColor::DarkGray);
    assert_eq!(TileId { suit: TileSuit::Dragon, value: 1 }.suit_color(), TileColor::DragonRed);
    assert_eq!(TileId { suit: TileSuit::Dragon, value: 2 }.suit_color(), TileColor::DragonGreen);
    assert_eq!(TileId { suit: TileSuit::Dragon, value: 3 }.suit_color(), TileColor::DragonWhite);
}

#[test]
fn ordering_is_by_suit_then_value() {
    let a = TileId { suit: TileSuit::Man, value: 9 };
    let b = TileId { suit: TileSuit::Pin, value: 1 };
    let c = TileId { suit: TileSuit::Pin, value: 2 };
    assert!(a < b && b < c);
    assert!(TileId { suit: TileSuit::Dragon, value: 1 } > TileId { suit: TileSuit::Wind, value: 4 });
}

#[test]
fn full_set_has_four_copies_of_each_identity() {
    let tiles = Tile::generate_full_set();
    assert_eq!(tiles.len(), 136);
    for i in 0..34usize {
        let id = TileId::from_index(i);
        let copies: Vec<u8> = tiles.iter().filter(|t| t.id == id).map(|t| t.copy_index).collect();
        assert_eq!(copies, vec![0, 1, 2, 3]);
    }
    for (j, a) in tiles.iter().enumerate() {
        for b in tiles.iter().skip(j + 1) {
            assert!(a != b);
        }
    }
}

#[test]
fn full_set_order() {
    let tiles = Tile::generate_full_set();
    assert_eq!(tiles[0], Tile { id: TileId { suit: TileSuit::Man, value: 1 }, copy_index: 0 });
    assert_eq!(tiles[3], Tile { id: TileId { suit: TileSuit::Man, value: 1 }, copy_index: 3 });
    assert_eq!(tiles[4], Tile { id: TileId { suit: TileSuit::Man, value: 2 }, copy_index: 0 });
    assert_eq!(tiles[108], Tile { id: TileId { suit: TileSuit::Wind, value: 1 }, copy_index: 0 });
    assert_eq!(tiles[135], Tile { id: TileId { suit: TileSuit::Dragon, value: 3 }, copy_index: 3 });
}
