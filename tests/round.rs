use red_center::{GameState, SubRound};

#[test]
fn sub_round_table() {
    assert_eq!(SubRound::SmallBlind.label(), "小盲注");
    assert_eq!(SubRound::BigBlind.label(), "大盲注");
    assert_eq!(SubRound::Boss.label(), "Boss");
    assert_eq!(SubRound::SmallBlind.target_multiplier(), 100);
    assert_eq!(SubRound::BigBlind.target_multiplier(), 200);
    assert_eq!(SubRound::Boss.target_multiplier(), 400);
    assert_eq!(SubRound::SmallBlind.next(), Some(SubRound::BigBlind));
    assert_eq!(SubRound::BigBlind.next(), Some(SubRound::Boss));
    assert_eq!(SubRound::Boss.next(), None);
}

#[test]
fn default_state() {
    let g = GameState::default();
    assert_eq!(g.level, 1);
    assert_eq!(g.sub_round, SubRound::SmallBlind);
    assert_eq!(g.plays_remaining, 4);
    assert_eq!(g.discards_remaining, 4);
    assert_eq!(g.target_score, 100);
    assert_eq!(g.current_score, 0);
    assert_eq!(g.base_ante, 10);
    assert_eq!(g.multiplier, 1);
    assert_eq!(g.hand_size, 14);
}

#[test]
fn sub_round_reset_refills_and_retargets() {
    let mut g = GameState::default();
    g.level = 3;
    g.sub_round = SubRound::BigBlind;
    g.plays_remaining = 0;
    g.discards_remaining = 1;
    g.current_score = 55;
    g.multiplier = 8;
    g.reset_for_sub_round();
    assert_eq!(g.plays_remaining, 4);
    assert_eq!(g.discards_remaining, 4);
    assert_eq!(g.current_score, 0);
    assert_eq!(g.multiplier, 1);
    assert_eq!(g.target_score, 600);
    assert_eq!(g.level, 3);
}

#[test]
fn advance_cycles_through_stages() {
    let mut g = GameState::default();
    assert!(g.advance_sub_round());
    assert_eq!(g.sub_round, SubRound::BigBlind);
    assert_eq!(g.level, 1);
    assert!(g.advance_sub_round());
    assert_eq!(g.sub_round, SubRound::Boss);
    assert_eq!(g.level, 1);
}

#[test]
fn clearing_the_boss_starts_the_next_level() {
    let mut g = GameState::default();
    g.level = 2;
    g.sub_round = SubRound::Boss;
    g.plays_remaining = 1;
    g.discards_remaining = 0;
    g.current_score = 900;
    assert!(g.advance_sub_round());
    g.reset_for_sub_round();
    assert_eq!(g.level, 3);
    assert_eq!(g.sub_round, SubRound::SmallBlind);
    assert_eq!(g.plays_remaining, 4);
    assert_eq!(g.discards_remaining, 4);
    assert_eq!(g.current_score, 0);
    assert_eq!(g.target_score, 300);
}

#[test]
fn new_game_reset() {
    let mut g = GameState::default();
    g.level = 7;
    g.sub_round = SubRound::Boss;
    g.current_score = 12;
    g.reset_for_new_game();
    assert_eq!(g.level, 1);
    assert_eq!(g.sub_round, SubRound::SmallBlind);
    assert_eq!(g.current_score, 0);
    assert_eq!(g.target_score, 100);
}
