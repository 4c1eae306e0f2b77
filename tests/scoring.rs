use red_center::{evaluate_hand, HandResult, TileId, TileSuit};

fn make_tiles(specs: &[(TileSuit, u8, u8)]) -> Vec<TileId> {
    let mut tiles = Vec::new();
    for &(suit, value, count) in specs {
        for _ in 0..count {
            tiles.push(TileId { suit, value });
        }
    }
    tiles
}

#[test]
fn test_standard_win_simple() {
    // 1m×2 (pair) + 2m,3m,4m + 5m,6m,7m + 1p,2p,3p + 4p,5p,6p = 14
    let tiles = make_tiles(&[
        (TileSuit::Man, 1, 2),
        (TileSuit::Man, 2, 1), (TileSuit::Man, 3, 1), (TileSuit::Man, 4, 1),
        (TileSuit::Man, 5, 1), (TileSuit::Man, 6, 1), (TileSuit::Man, 7, 1),
        (TileSuit::Pin, 1, 1), (TileSuit::Pin, 2, 1), (TileSuit::Pin, 3, 1),
        (TileSuit::Pin, 4, 1), (TileSuit::Pin, 5, 1), (TileSuit::Pin, 6, 1),
    ]);
    assert_eq!(tiles.len(), 14);
    let result = evaluate_hand(&tiles);
    assert!(result.multiplier >= 1, "Should be a winning hand: {:?}", result);
}

#[test]
fn test_seven_pairs() {
    let tiles = make_tiles(&[
        (TileSuit::Man, 1, 2),
        (TileSuit::Man, 3, 2),
        (TileSuit::Man, 5, 2),
        (TileSuit::Man, 7, 2),
        (TileSuit::Pin, 2, 2),
        (TileSuit::Pin, 4, 2),
        (TileSuit::Sou, 6, 2),
    ]);
    assert_eq!(tiles.len(), 14);
    let result = evaluate_hand(&tiles);
    assert_eq!(result.pattern_name, "七对子");
    assert_eq!(result.multiplier, 4);
}

#[test]
fn test_thirteen_orphans() {
    let tiles = make_tiles(&[
        (TileSuit::Man, 1, 2),
        (TileSuit::Man, 9, 1),
        (TileSuit::Pin, 1, 1),
        (TileSuit::Pin, 9, 1),
        (TileSuit::Sou, 1, 1),
        (TileSuit::Sou, 9, 1),
        (TileSuit::Wind, 1, 1),
        (TileSuit::Wind, 2, 1),
        (TileSuit::Wind, 3, 1),
        (TileSuit::Wind, 4, 1),
        (TileSuit::Dragon, 1, 1),
        (TileSuit::Dragon, 2, 1),
        (TileSuit::Dragon, 3, 1),
    ]);
    assert_eq!(tiles.len(), 14);
    let result = evaluate_hand(&tiles);
    assert_eq!(result.pattern_name, "国士无双");
    assert_eq!(result.multiplier, 13);
}

#[test]
fn test_chinitsu() {
    // 1m×3, 2m, 3m, 4m, 5m, 6m, 7m×2, 8m×2, 9m×2 = 14
    let tiles = make_tiles(&[
        (TileSuit::Man, 1, 3),
        (TileSuit::Man, 2, 1),
        (TileSuit::Man, 3, 1),
        (TileSuit::Man, 4, 1),
        (TileSuit::Man, 5, 1),
        (TileSuit::Man, 6, 1),
        (TileSuit::Man, 7, 2),
        (TileSuit::Man, 8, 2),
        (TileSuit::Man, 9, 2),
    ]);
    assert_eq!(tiles.len(), 14);
    let result = evaluate_hand(&tiles);
    assert_eq!(result.pattern_name, "清一色");
    assert_eq!(result.multiplier, 8);
}

#[test]
fn test_toitoi() {
    // 1m×3, 5m×3, 9p×3, red dragon×3, east×2 = 14
    let tiles = make_tiles(&[
        (TileSuit::Man, 1, 3),
        (TileSuit::Man, 5, 3),
        (TileSuit::Pin, 9, 3),
        (TileSuit::Dragon, 1, 3),
        (TileSuit::Wind, 1, 2),
    ]);
    assert_eq!(tiles.len(), 14);
    let result = evaluate_hand(&tiles);
    assert_eq!(result.pattern_name, "对对和");
    assert_eq!(result.multiplier, 4);
}

#[test]
fn test_no_pattern() {
    let tiles = make_tiles(&[
        (TileSuit::Man, 1, 1),
        (TileSuit::Man, 3, 1),
        (TileSuit::Man, 5, 1),
        (TileSuit::Pin, 2, 1),
        (TileSuit::Pin, 7, 1),
        (TileSuit::Sou, 1, 1),
        (TileSuit::Sou, 4, 1),
        (TileSuit::Sou, 8, 1),
        (TileSuit::Wind, 1, 1),
        (TileSuit::Wind, 3, 1),
        (TileSuit::Dragon, 1, 1),
        (TileSuit::Dragon, 2, 1),
        (TileSuit::Dragon, 3, 1),
        (TileSuit::Man, 9, 1),
    ]);
    assert_eq!(tiles.len(), 14);
    let result = evaluate_hand(&tiles);
    assert_eq!(result.pattern_name, "未和牌");
}

#[test]
fn test_tanyao() {
    // pair of 5m + runs 234m, 567m, 234p, 678p = 14
    let tiles = make_tiles(&[
        (TileSuit::Man, 5, 3),
        (TileSuit::Man, 2, 1), (TileSuit::Man, 3, 1), (TileSuit::Man, 4, 1),
        (TileSuit::Man, 6, 1), (TileSuit::Man, 7, 1),
        (TileSuit::Pin, 2, 1), (TileSuit::Pin, 3, 1), (TileSuit::Pin, 4, 1),
        (TileSuit::Pin, 6, 1), (TileSuit::Pin, 7, 1), (TileSuit::Pin, 8, 1),
    ]);
    assert_eq!(tiles.len(), 14);
    let result = evaluate_hand(&tiles);
    assert_eq!(result.pattern_name, "断幺九");
    assert_eq!(result.multiplier, 2);
}

#[test]
fn all_runs_hand_is_pinfu() {
    let tiles = make_tiles(&[
        (TileSuit::Man, 1, 2),
        (TileSuit::Man, 2, 1), (TileSuit::Man, 3, 1), (TileSuit::Man, 4, 1),
        (TileSuit::Man, 5, 1), (TileSuit::Man, 6, 1), (TileSuit::Man, 7, 1),
        (TileSuit::Pin, 1, 1), (TileSuit::Pin, 2, 1), (TileSuit::Pin, 3, 1),
        (TileSuit::Pin, 4, 1), (TileSuit::Pin, 5, 1), (TileSuit::Pin, 6, 1),
    ]);
    let result = evaluate_hand(&tiles);
    assert_eq!(result.pattern_name, "平和");
    assert_eq!(result.base, 10);
    assert_eq!(result.multiplier, 1);
    assert_eq!(result.total(), 10);
}

#[test]
fn no_pattern_scores_tile_count() {
    let tiles = make_tiles(&[
        (TileSuit::Man, 1, 1),
        (TileSuit::Man, 3, 1),
        (TileSuit::Man, 5, 1),
        (TileSuit::Pin, 2, 1),
        (TileSuit::Pin, 7, 1),
        (TileSuit::Sou, 1, 1),
        (TileSuit::Sou, 4, 1),
        (TileSuit::Sou, 8, 1),
        (TileSuit::Wind, 1, 1),
        (TileSuit::Wind, 3, 1),
        (TileSuit::Dragon, 1, 1),
        (TileSuit::Dragon, 2, 1),
        (TileSuit::Dragon, 3, 1),
        (TileSuit::Man, 9, 1),
    ]);
    let result = evaluate_hand(&tiles);
    assert_eq!(result.base, 14);
    assert_eq!(result.multiplier, 1);
    assert_eq!(result.total(), 14);
}

#[test]
fn empty_hand_is_no_hand() {
    let result = evaluate_hand(&[]);
    assert_eq!(result.pattern_name, "无牌型");
    assert_eq!(result.base, 0);
    assert_eq!(result.multiplier, 1);
    assert_eq!(result.total(), 0);
}

#[test]
fn short_hand_without_shape_scores_its_size() {
    let tiles = make_tiles(&[(TileSuit::Man, 1, 1), (TileSuit::Pin, 5, 1), (TileSuit::Wind, 2, 1)]);
    let result = evaluate_hand(&tiles);
    assert_eq!(result.pattern_name, "未和牌");
    assert_eq!(result.base, 3);
    assert_eq!(result.multiplier, 1);
}

#[test]
fn lone_honor_pair_is_honitsu() {
    // a single pair and no melds is a standard hand of two tiles; with honors
    // only, it holds an honor and no numbered tile of another suit
    let tiles = make_tiles(&[(TileSuit::Wind, 3, 2)]);
    let result = evaluate_hand(&tiles);
    assert_eq!(result.pattern_name, "混一色");
    assert_eq!(result.multiplier, 5);
}

#[test]
fn lone_numbered_pair_is_chinitsu() {
    let tiles = make_tiles(&[(TileSuit::Sou, 4, 2)]);
    let result = evaluate_hand(&tiles);
    assert_eq!(result.pattern_name, "清一色");
    assert_eq!(result.multiplier, 8);
}

#[test]
fn honors_only_standard_hand_is_honitsu() {
    // four honor triplets and an honor pair
    let tiles = make_tiles(&[
        (TileSuit::Wind, 1, 3),
        (TileSuit::Wind, 2, 3),
        (TileSuit::Wind, 3, 3),
        (TileSuit::Dragon, 1, 3),
        (TileSuit::Dragon, 2, 2),
    ]);
    let result = evaluate_hand(&tiles);
    assert_eq!(result.pattern_name, "混一色");
    assert_eq!(result.base, 10);
    assert_eq!(result.multiplier, 5);
}

#[test]
fn honitsu_hand() {
    // 123m 456m 789m, east×3, red dragon pair
    let tiles = make_tiles(&[
        (TileSuit::Man, 1, 1), (TileSuit::Man, 2, 1), (TileSuit::Man, 3, 1),
        (TileSuit::Man, 4, 1), (TileSuit::Man, 5, 1), (TileSuit::Man, 6, 1),
        (TileSuit::Man, 7, 1), (TileSuit::Man, 8, 1), (TileSuit::Man, 9, 1),
        (TileSuit::Wind, 1, 3),
        (TileSuit::Dragon, 1, 2),
    ]);
    let result = evaluate_hand(&tiles);
    assert_eq!(result.pattern_name, "混一色");
    assert_eq!(result.base, 10);
    assert_eq!(result.multiplier, 5);
    assert_eq!(result.total(), 50);
}

#[test]
fn straight_hand() {
    // 123p 456p 789p, 1m×3, 5s pair
    let tiles = make_tiles(&[
        (TileSuit::Pin, 1, 1), (TileSuit::Pin, 2, 1), (TileSuit::Pin, 3, 1),
        (TileSuit::Pin, 4, 1), (TileSuit::Pin, 5, 1), (TileSuit::Pin, 6, 1),
        (TileSuit::Pin, 7, 1), (TileSuit::Pin, 8, 1), (TileSuit::Pin, 9, 1),
        (TileSuit::Man, 1, 3),
        (TileSuit::Sou, 5, 2),
    ]);
    let result = evaluate_hand(&tiles);
    assert_eq!(result.pattern_name, "一气通贯");
    assert_eq!(result.multiplier, 3);
}

#[test]
fn plain_standard_win() {
    // 1m×3, 234p, 567s, 789p, east pair
    let tiles = make_tiles(&[
        (TileSuit::Man, 1, 3),
        (TileSuit::Pin, 2, 1), (TileSuit::Pin, 3, 1), (TileSuit::Pin, 4, 1),
        (TileSuit::Sou, 5, 1), (TileSuit::Sou, 6, 1), (TileSuit::Sou, 7, 1),
        (TileSuit::Pin, 7, 1), (TileSuit::Pin, 8, 1), (TileSuit::Pin, 9, 1),
        (TileSuit::Wind, 1, 2),
    ]);
    let result = evaluate_hand(&tiles);
    assert_eq!(result.pattern_name, "和了");
    assert_eq!(result.base, 10);
    assert_eq!(result.multiplier, 1);
}

#[test]
fn triplets_or_runs_of_one_block() {
    // 111m 222m 333m read as triplets or as three runs of 123m
    let tiles = make_tiles(&[
        (TileSuit::Man, 1, 3),
        (TileSuit::Man, 2, 3),
        (TileSuit::Man, 3, 3),
        (TileSuit::Pin, 4, 1), (TileSuit::Pin, 5, 1), (TileSuit::Pin, 6, 1),
        (TileSuit::Sou, 9, 2),
    ]);
    let result = evaluate_hand(&tiles);
    // 111m 222m 333m are triplets too, so the hand is standard but has triplets
    assert_eq!(result.pattern_name, "和了");
    assert_eq!(result.multiplier, 1);
}

#[test]
fn runs_never_cross_suits() {
    // 8m 9m 1p would be consecutive indices but is no run
    let tiles = make_tiles(&[
        (TileSuit::Man, 8, 1), (TileSuit::Man, 9, 1), (TileSuit::Pin, 1, 1),
        (TileSuit::Sou, 2, 2),
    ]);
    let result = evaluate_hand(&tiles);
    assert_eq!(result.pattern_name, "未和牌");
    assert_eq!(result.base, 5);
}

#[test]
fn honors_never_form_runs() {
    let tiles = make_tiles(&[
        (TileSuit::Wind, 1, 1), (TileSuit::Wind, 2, 1), (TileSuit::Wind, 3, 1),
        (TileSuit::Dragon, 3, 2),
    ]);
    let result = evaluate_hand(&tiles);
    assert_eq!(result.pattern_name, "未和牌");
}

#[test]
fn order_of_tiles_does_not_matter() {
    let tiles = make_tiles(&[
        (TileSuit::Man, 1, 3),
        (TileSuit::Man, 2, 1),
        (TileSuit::Man, 3, 1),
        (TileSuit::Man, 4, 1),
        (TileSuit::Man, 5, 1),
        (TileSuit::Man, 6, 1),
        (TileSuit::Man, 7, 2),
        (TileSuit::Man, 8, 2),
        (TileSuit::Man, 9, 2),
    ]);
    let a = evaluate_hand(&tiles);
    let mut reversed = tiles.clone();
    reversed.reverse();
    let b = evaluate_hand(&reversed);
    let mut rotated = tiles.clone();
    rotated.rotate_left(5);
    let c = evaluate_hand(&rotated);
    for r in [&b, &c] {
        assert_eq!(a.pattern_name, r.pattern_name);
        assert_eq!(a.base, r.base);
        assert_eq!(a.multiplier, r.multiplier);
    }
}

#[test]
fn thirteen_orphans_outranks_seven_pairs_shape() {
    // thirteen orphans also has pairs and honors; it must still win
    let tiles = make_tiles(&[
        (TileSuit::Dragon, 3, 2),
        (TileSuit::Man, 1, 1),
        (TileSuit::Man, 9, 1),
        (TileSuit::Pin, 1, 1),
        (TileSuit::Pin, 9, 1),
        (TileSuit::Sou, 1, 1),
        (TileSuit::Sou, 9, 1),
        (TileSuit::Wind, 1, 1),
        (TileSuit::Wind, 2, 1),
        (TileSuit::Wind, 3, 1),
        (TileSuit::Wind, 4, 1),
        (TileSuit::Dragon, 1, 1),
        (TileSuit::Dragon, 2, 1),
    ]);
    let result = evaluate_hand(&tiles);
    assert_eq!(result.pattern_name, "国士无双");
    assert_eq!(result.multiplier, 13);
    assert_eq!(result.total(), 130);
}

#[test]
fn chinitsu_of_seven_pairs_shape_is_chinitsu() {
    // 11m 22m 33m 44m 55m 66m 77m: standard (pair + runs) and seven pairs
    let tiles = make_tiles(&[
        (TileSuit::Man, 1, 2),
        (TileSuit::Man, 2, 2),
        (TileSuit::Man, 3, 2),
        (TileSuit::Man, 4, 2),
        (TileSuit::Man, 5, 2),
        (TileSuit::Man, 6, 2),
        (TileSuit::Man, 7, 2),
    ]);
    let result = evaluate_hand(&tiles);
    assert_eq!(result.pattern_name, "清一色");
    assert_eq!(result.multiplier, 8);
}

#[test]
fn hand_result_total_multiplies() {
    let r = HandResult { pattern_name: String::from("x"), base: 10, multiplier: 8 };
    assert_eq!(r.total(), 80);
}
