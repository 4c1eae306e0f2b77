use vstd::prelude::*;

verus! {

/// Plays granted at the start of each sub-round.
pub const PLAYS_PER_ROUND: u32 = 4;

/// Discards granted at the start of each sub-round.
pub const DISCARDS_PER_ROUND: u32 = 4;

/// How many tiles the hand is dealt.
pub const HAND_SIZE: usize = 14;

/// The three stages of a level.
#[derive(Clone, Copy, Debug, PartialEq, Eq, Structural)]
pub enum SubRound {
    SmallBlind,
    BigBlind,
    Boss,
}

impl SubRound {
    pub open spec fn label_chars(self) -> Seq<char> {
        match self {
            SubRound::SmallBlind => "小盲注"@,
            SubRound::BigBlind => "大盲注"@,
            SubRound::Boss => "Boss"@,
        }
    }

    /// Target score per level.
    pub open spec fn target_mult(self) -> u32 {
        match self {
            SubRound::SmallBlind => 100,
            SubRound::BigBlind => 200,
            SubRound::Boss => 400,
        }
    }

    /// The following stage of the same level, if any.
    pub open spec fn following(self) -> Option<SubRound> {
        match self {
            SubRound::SmallBlind => Some(SubRound::BigBlind),
            SubRound::BigBlind => Some(SubRound::Boss),
            SubRound::Boss => None,
        }
    }

    pub fn label(&self) -> (r: &'static str)
        ensures
            r@ == self.label_chars(),
    {
        match self {
            SubRound::SmallBlind => "小盲注",
            SubRound::BigBlind => "大盲注",
            SubRound::Boss => "Boss",
        }
    }

    pub fn target_multiplier(&self) -> (r: u32)
        ensures
            r == self.target_mult(),
    {
        match self {
            SubRound::SmallBlind => 100,
            SubRound::BigBlind => 200,
            SubRound::Boss => 400,
        }
    }

    pub fn next(&self) -> (r: Option<SubRound>)
        ensures
            r == self.following(),
    {
        match self {
            SubRound::SmallBlind => Some(SubRound::BigBlind),
            SubRound::BigBlind => Some(SubRound::Boss),
            SubRound::Boss => None,
        }
    }
}

/// The round record: level, stage, budgets, target and scores.
pub struct GameState {
    pub level: u32,
    pub sub_round: SubRound,
    pub plays_remaining: u32,
    pub discards_remaining: u32,
    pub target_score: u32,
    pub current_score: u32,
    pub base_ante: u32,
    pub multiplier: u32,
    pub hand_size: usize,
}

/// The record at the start of a game.
pub open spec fn initial_state() -> GameState {
    GameState {
        level: 1,
        sub_round: SubRound::SmallBlind,
        plays_remaining: PLAYS_PER_ROUND,
        discards_remaining: DISCARDS_PER_ROUND,
        target_score: 100,
        current_score: 0,
        base_ante: 10,
        multiplier: 1,
        hand_size: HAND_SIZE,
    }
}

/// The record after budgets, score and target are reset for its stage.
pub open spec fn sub_round_reset(g: GameState) -> GameState {
    GameState {
        plays_remaining: PLAYS_PER_ROUND,
        discards_remaining: DISCARDS_PER_ROUND,
        current_score: 0,
        multiplier: 1,
        target_score: (g.sub_round.target_mult() * g.level) as u32,
        ..g
    }
}

/// The record after moving to the next stage; past the Boss, to the first
/// stage of the next level.
pub open spec fn advanced(g: GameState) -> GameState {
    match g.sub_round.following() {
        Some(n) => GameState { sub_round: n, ..g },
        None => GameState { level: (g.level + 1) as u32, sub_round: SubRound::SmallBlind, ..g },
    }
}

/// The target of the record's stage fits in a `u32`.
pub open spec fn target_fits(g: GameState) -> bool {
    g.sub_round.target_mult() * g.level <= u32::MAX
}

impl Default for GameState {
    fn default() -> (r: GameState)
        ensures
            r == initial_state(),
    {
        GameState {
            level: 1,
            sub_round: SubRound::SmallBlind,
            plays_remaining: PLAYS_PER_ROUND,
            discards_remaining: DISCARDS_PER_ROUND,
            target_score: 100,
            current_score: 0,
            base_ante: 10,
            multiplier: 1,
            hand_size: HAND_SIZE,
        }
    }
}

impl GameState {
    pub fn reset_for_new_game(&mut self)
        ensures
            *final(self) == initial_state(),
    {
        *self = GameState::default();
    }

    pub fn reset_for_sub_round(&mut self)
        requires
            target_fits(*old(self)),
        ensures
            *final(self) == sub_round_reset(*old(self)),
    {
        self.plays_remaining = PLAYS_PER_ROUND;
        self.discards_remaining = DISCARDS_PER_ROUND;
        self.current_score = 0;
        self.multiplier = 1;
        self.target_score = self.sub_round.target_multiplier() * self.level;
    }

    /// Moves to the next stage, or past the Boss to the next level; always
    /// succeeds.
    pub fn advance_sub_round(&mut self) -> (r: bool)
        requires
            old(self).sub_round == SubRound::Boss ==> old(self).level < u32::MAX,
        ensures
            *final(self) == advanced(*old(self)),
            r,
    {
        if let Some(next) = self.sub_round.next() {
            self.sub_round = next;
            true
        } else {
            self.level = self.level + 1;
            self.sub_round = SubRound::SmallBlind;
            true
        }
    }
}

/// Clearing the Boss stage moves to the first stage of the next level, and
/// the reset that follows refills both budgets, zeroes the score and sets
/// the target to the new level times one hundred.
pub proof fn lemma_boss_cleared(g: GameState)
    requires
        g.sub_round == SubRound::Boss,
        g.level < u32::MAX,
    ensures
        sub_round_reset(advanced(g)).level == g.level + 1,
        sub_round_reset(advanced(g)).sub_round == SubRound::SmallBlind,
        sub_round_reset(advanced(g)).plays_remaining == PLAYS_PER_ROUND,
        sub_round_reset(advanced(g)).discards_remaining == DISCARDS_PER_ROUND,
        sub_round_reset(advanced(g)).current_score == 0,
        sub_round_reset(advanced(g)).multiplier == 1,
        target_fits(advanced(g)) ==> sub_round_reset(advanced(g)).target_score == (g.level + 1)
            * 100 && sub_round_reset(advanced(g)).target_score == sub_round_reset(advanced(g)).level
            * 100,
{
    let a = advanced(g);
    assert(a.level == g.level + 1);
    assert(a.sub_round.target_mult() == 100);
    if target_fits(a) {
        assert(a.sub_round.target_mult() * a.level == 100 * a.level);
    }
}

/// The draw pile, in draw order: tiles leave from the end.
pub struct TileWall {
    pub tiles: Vec<usize>,
}

/// The tiles the player holds, in display order.
pub struct PlayerHand {
    pub tiles: Vec<usize>,
}

/// The tiles committed for evaluation this round.
pub struct PlayBoard {
    pub tiles: Vec<usize>,
}

} // verus!
