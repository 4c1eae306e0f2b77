use rand::seq::SliceRandom;
use rand::SeedableRng;
use vstd::prelude::*;

use crate::events::{RoundEndedEvent, ScoreCalculatedEvent};
use crate::game::{AppState, PlayPhase};
use crate::resources::{
    advanced, initial_state, sub_round_reset, target_fits, GameState, PlayBoard, PlayerHand,
    SubRound, TileWall, HAND_SIZE,
};
use crate::scoring::{classify, evaluate_hand, Pattern};
use crate::tile::{
    full_set_tile, lemma_full_set_contents, tile_at, Tile, TileId, TileLocation, FULL_SET_SIZE,
};

verus! {

broadcast use {vstd::seq_lib::group_to_multiset_ensures, vstd::seq_lib::lemma_multiset_commutative};

/// The handles of the hand whose selected flag is set, in hand order.
pub open spec fn picked(hand: Seq<usize>, flags: Seq<bool>) -> Seq<usize>
    decreases hand.len(),
{
    if hand.len() == 0 {
        Seq::empty()
    } else if flags[hand.last() as int] {
        picked(hand.drop_last(), flags).push(hand.last())
    } else {
        picked(hand.drop_last(), flags)
    }
}

/// The handles of the hand whose selected flag is clear, in hand order.
pub open spec fn unpicked(hand: Seq<usize>, flags: Seq<bool>) -> Seq<usize>
    decreases hand.len(),
{
    if hand.len() == 0 {
        Seq::empty()
    } else if flags[hand.last() as int] {
        unpicked(hand.drop_last(), flags)
    } else {
        unpicked(hand.drop_last(), flags).push(hand.last())
    }
}

/// The first `d` tiles drawn from the end of a pile, in draw order.
pub open spec fn drawn(wall: Seq<usize>, d: int) -> Seq<usize> {
    Seq::new(d as nat, |k: int| wall[wall.len() - 1 - k])
}

/// Replacements drawn for `k` tiles from a pile of `w`.
pub open spec fn draw_count(k: int, w: int) -> int {
    if k < w {
        k
    } else {
        w
    }
}

/// The handles `0 .. n`.
pub open spec fn handles(n: nat) -> Seq<usize> {
    Seq::new(n, |i: int| i as usize)
}

/// Selected flags, one per tile of the arena.
pub struct TileSelected {
    pub flags: Vec<bool>,
}

/// A game session: the round record, the arena of physical tiles, and the
/// handles of those tiles in the draw pile, the hand, the play area and the
/// discards.
pub struct Session {
    pub state: GameState,
    pub tiles: Vec<Tile>,
    pub wall: TileWall,
    pub hand: PlayerHand,
    pub board: PlayBoard,
    pub discarded: Vec<usize>,
    pub selected: TileSelected,
    pub app_state: AppState,
    pub phase: PlayPhase,
}

impl Session {
    /// Every handle held by the four collections, pile first.
    pub open spec fn all_handles(&self) -> Seq<usize> {
        self.wall.tiles@ + self.hand.tiles@ + self.board.tiles@ + self.discarded@
    }

    /// The handles of the hand that are selected, in hand order.
    pub open spec fn selected_in_hand(&self) -> Seq<usize> {
        picked(self.hand.tiles@, self.selected.flags@)
    }

    /// Each physical tile of the arena stands in exactly one collection, the
    /// arena holds at most the full set of well-formed identities, and there
    /// is one selected flag per tile.
    pub open spec fn wf(&self) -> bool {
        &&& self.tiles@.len() <= FULL_SET_SIZE
        &&& forall|k: int| 0 <= k < self.tiles@.len() ==> (#[trigger] self.tiles@[k]).id.wf()
        &&& self.selected.flags@.len() == self.tiles@.len()
        &&& self.all_handles().to_multiset() == handles(self.tiles@.len()).to_multiset()
    }
}

proof fn lemma_pick_split(hand: Seq<usize>, flags: Seq<bool>)
    requires
        forall|i: int| 0 <= i < hand.len() ==> hand[i] < flags.len(),
    ensures
        (picked(hand, flags) + unpicked(hand, flags)).to_multiset() == hand.to_multiset(),
        picked(hand, flags).len() + unpicked(hand, flags).len() == hand.len(),
        forall|x: usize|
            #[trigger] picked(hand, flags).contains(x) <==> hand.contains(x) && flags[x as int],
        forall|x: usize| #[trigger] unpicked(hand, flags).contains(x) ==> hand.contains(x),
    decreases hand.len(),
{
    if hand.len() > 0 {
        let h = hand.drop_last();
        let l = hand.last();
        lemma_pick_split(h, flags);
        hand.lemma_add_last_back();
        assert(hand =~= h.push(l));
        assert(hand.to_multiset() =~= h.to_multiset().insert(l));
        let p = picked(h, flags);
        let u = unpicked(h, flags);
        if flags[l as int] {
            assert((p.push(l) + u).to_multiset() =~= (p + u).to_multiset().insert(l));
        } else {
            assert((p + u.push(l)).to_multiset() =~= (p + u).to_multiset().insert(l));
        }
        let ph = picked(hand, flags);
        let uh = unpicked(hand, flags);
        assert forall|x: usize| #[trigger] ph.contains(x) implies hand.contains(x) && flags[x as int] by {
            let i = choose|i: int| 0 <= i < ph.len() && ph[i] == x;
            if flags[l as int] && i == p.len() {
                assert(hand[hand.len() - 1] == x);
            } else {
                assert(p[i] == x);
                assert(p.contains(x));
                let j = choose|j: int| 0 <= j < h.len() && h[j] == x;
                assert(hand[j] == x);
            }
        }
        assert forall|x: usize| hand.contains(x) && flags[x as int] implies #[trigger] ph.contains(x) by {
            let i = choose|i: int| 0 <= i < hand.len() && hand[i] == x;
            if i == hand.len() - 1 {
                assert(ph[p.len() as int] == x);
            } else {
                assert(h[i] == x);
                assert(h.contains(x));
                assert(p.contains(x));
                let j = choose|j: int| 0 <= j < p.len() && p[j] == x;
                assert(ph[j] == x);
            }
        }
        assert forall|x: usize| #[trigger] uh.contains(x) implies hand.contains(x) by {
            let i = choose|i: int| 0 <= i < uh.len() && uh[i] == x;
            if !flags[l as int] && i == u.len() {
                assert(hand[hand.len() - 1] == x);
            } else {
                assert(u[i] == x);
                assert(u.contains(x));
                let j = choose|j: int| 0 <= j < h.len() && h[j] == x;
                assert(hand[j] == x);
            }
        }
    } else {
        assert(picked(hand, flags) + unpicked(hand, flags) =~= hand);
    }
}

proof fn lemma_draw_split(wall: Seq<usize>, d: int)
    requires
        0 <= d <= wall.len(),
    ensures
        (wall.take(wall.len() - d) + drawn(wall, d)).to_multiset() == wall.to_multiset(),
{
    let n = wall.len() as int;
    let sub = wall.subrange(n - d, n);
    assert(drawn(wall, d) =~= sub.reverse());
    sub.lemma_reverse_to_multiset();
    assert(wall.take(n - d) + sub =~= wall);
}

/// In a well-formed session every handle is below the arena's size, and the
/// collections hold as many handles as the arena has tiles.
proof fn lemma_handles_bound(s: Session)
    requires
        s.wf(),
    ensures
        s.all_handles().len() == s.tiles@.len(),
        forall|i: int| 0 <= i < s.all_handles().len() ==> #[trigger] s.all_handles()[i] < s.tiles@.len(),
        forall|i: int| 0 <= i < s.hand.tiles@.len() ==> #[trigger] s.hand.tiles@[i] < s.tiles@.len(),
        forall|i: int| 0 <= i < s.board.tiles@.len() ==> #[trigger] s.board.tiles@[i] < s.tiles@.len(),
{
    let a = s.all_handles();
    let n = s.tiles@.len();
    assert(a.len() == a.to_multiset().len());
    assert(handles(n).len() == handles(n).to_multiset().len());
    assert forall|i: int| 0 <= i < a.len() implies #[trigger] a[i] < n by {
        assert(a.contains(a[i]));
        assert(a.to_multiset().count(a[i]) > 0);
        assert(handles(n).to_multiset().count(a[i]) > 0);
        assert(handles(n).contains(a[i]));
    }
    let w = s.wall.tiles@.len();
    let hl = s.hand.tiles@.len();
    assert forall|i: int| 0 <= i < hl implies #[trigger] s.hand.tiles@[i] < n by {
        assert(a[w + i] == s.hand.tiles@[i]);
    }
    assert forall|i: int| 0 <= i < s.board.tiles@.len() implies #[trigger] s.board.tiles@[i] < n by {
        assert(a[w + hl + i] == s.board.tiles@[i]);
    }
}

proof fn lemma_to_multiset_4(a: Seq<usize>, b: Seq<usize>, c: Seq<usize>, d: Seq<usize>)
    ensures
        (a + b + c + d).to_multiset() == a.to_multiset().add(b.to_multiset()).add(
            c.to_multiset(),
        ).add(d.to_multiset()),
{
    vstd::seq_lib::lemma_multiset_commutative(a, b);
    vstd::seq_lib::lemma_multiset_commutative(a + b, c);
    vstd::seq_lib::lemma_multiset_commutative(a + b + c, d);
}

/// Appends `moved` to `dest` and clears the selected flag of each of them.
fn move_to(dest: &mut Vec<usize>, flags: &mut Vec<bool>, moved: &Vec<usize>)
    requires
        forall|i: int| 0 <= i < moved@.len() ==> #[trigger] moved@[i] < old(flags)@.len(),
    ensures
        final(dest)@ == old(dest)@ + moved@,
        final(flags)@ == Seq::new(
            old(flags)@.len(),
            |h: int| old(flags)@[h] && !moved@.contains(h as usize),
        ),
{
    let ghost dest0 = dest@;
    let ghost flags0 = flags@;
    let flen = flags.len();
    let mut j: usize = 0;
    while j < moved.len()
        invariant
            j <= moved@.len(),
            forall|i: int| 0 <= i < moved@.len() ==> #[trigger] moved@[i] < flags0.len(),
            dest@ == dest0 + moved@.take(j as int),
            flags@.len() == flags0.len(),
            flags0.len() == flen,
            forall|h: int|
                0 <= h < flags0.len() ==> #[trigger] flags@[h] == (flags0[h] && !moved@.take(
                    j as int,
                ).contains(h as usize)),
        decreases moved@.len() - j,
    {
        let h = moved[j];
        dest.push(h);
        flags[h] = false;
        proof {
            let t0 = moved@.take(j as int);
            let t1 = moved@.take(j + 1);
            assert(t1 =~= t0.push(h));
            assert forall|x: usize| #[trigger] t1.contains(x) <==> t0.contains(x) || x == h by {
                if t1.contains(x) && x != h {
                    let i = choose|i: int| 0 <= i < t1.len() && t1[i] == x;
                    assert(t0[i] == x);
                }
                if t0.contains(x) {
                    let i = choose|i: int| 0 <= i < t0.len() && t0[i] == x;
                    assert(t1[i] == x);
                }
                if x == h {
                    assert(t1[j as int] == x);
                }
            }
            assert forall|g: int| 0 <= g < flags0.len() implies #[trigger] flags@[g] == (flags0[g]
                && !t1.contains(g as usize)) by {
                if g == h as int {
                    assert(t1.contains(g as usize));
                }
            }
        }
        j = j + 1;
    }
    proof {
        assert(moved@.take(moved@.len() as int) =~= moved@);
        assert(flags@ =~= Seq::new(flags0.len(), |h: int| flags0[h] && !moved@.contains(h as usize)));
    }
}

/// Draws `n` tiles from the end of the pile into the hand, one at a time:
/// the last tile of the pile comes first.
pub fn draw_tiles(wall: &mut Vec<usize>, hand: &mut Vec<usize>, n: usize)
    requires
        n <= old(wall)@.len(),
    ensures
        final(wall)@ == old(wall)@.take(old(wall)@.len() - n),
        final(hand)@ == old(hand)@ + drawn(old(wall)@, n as int),
{
    let ghost wall0 = wall@;
    let ghost hand0 = hand@;
    let mut j: usize = 0;
    while j < n
        invariant
            j <= n,
            n <= wall0.len(),
            wall@ == wall0.take(wall0.len() - j),
            hand@ == hand0 + drawn(wall0, j as int),
        decreases n - j,
    {
        let h = wall.pop().unwrap();
        hand.push(h);
        proof {
            assert(h == wall0[wall0.len() - 1 - j]);
            assert(wall@ =~= wall0.take(wall0.len() - (j + 1)));
            assert(hand@ =~= hand0 + drawn(wall0, j + 1));
        }
        j = j + 1;
    }
}

impl Session {
    /// The selected flags after those of the hand's tiles are cleared.
    pub open spec fn flags_cleared(&self) -> Seq<bool> {
        Seq::new(
            self.selected.flags@.len(),
            |h: int| self.selected.flags@[h] && !self.hand.tiles@.contains(h as usize),
        )
    }

    /// How many replacements the pile gives for the selected tiles.
    pub open spec fn replacements(&self) -> int {
        draw_count(self.selected_in_hand().len() as int, self.wall.tiles@.len() as int)
    }

    /// The hand after the selected tiles leave it and replacements arrive.
    pub open spec fn hand_after_move(&self) -> Seq<usize> {
        unpicked(self.hand.tiles@, self.selected.flags@) + drawn(
            self.wall.tiles@,
            self.replacements(),
        )
    }

    /// The pile after the replacements are drawn.
    pub open spec fn wall_after_move(&self) -> Seq<usize> {
        self.wall.tiles@.take(self.wall.tiles@.len() - self.replacements())
    }

    /// Splits the hand into its selected and unselected handles, each in hand
    /// order.
    fn split_selection(&self) -> (r: (Vec<usize>, Vec<usize>))
        requires
            self.wf(),
        ensures
            r.0@ == self.selected_in_hand(),
            r.1@ == unpicked(self.hand.tiles@, self.selected.flags@),
    {
        proof {
            lemma_handles_bound(*self);
        }
        let ghost hand = self.hand.tiles@;
        let ghost flags = self.selected.flags@;
        let mut moved: Vec<usize> = Vec::new();
        let mut kept: Vec<usize> = Vec::new();
        let mut i: usize = 0;
        while i < self.hand.tiles.len()
            invariant
                i <= hand.len(),
                hand == self.hand.tiles@,
                flags == self.selected.flags@,
                forall|k: int| 0 <= k < hand.len() ==> #[trigger] hand[k] < flags.len(),
                moved@ == picked(hand.take(i as int), flags),
                kept@ == unpicked(hand.take(i as int), flags),
            decreases hand.len() - i,
        {
            let h = self.hand.tiles[i];
            proof {
                assert(hand.take(i + 1).drop_last() =~= hand.take(i as int));
                assert(hand.take(i + 1).last() == h);
            }
            if self.selected.flags[h] {
                moved.push(h);
            } else {
                kept.push(h);
            }
            i = i + 1;
        }
        proof {
            assert(hand.take(hand.len() as int) =~= hand);
        }
        (moved, kept)
    }

    /// Plays the selected tiles of the hand: they move to the play area in
    /// hand order with their flags cleared, one replacement per tile is drawn
    /// while the pile lasts, and one play is spent. Nothing happens without a
    /// play left or a selected tile in the hand.
    pub fn on_play_tiles(&mut self)
        requires
            old(self).wf(),
        ensures
            final(self).wf(),
            old(self).state.plays_remaining == 0 || old(self).selected_in_hand().len() == 0
                ==> *final(self) == *old(self),
            old(self).state.plays_remaining > 0 && old(self).selected_in_hand().len() > 0 ==> {
                &&& final(self).board.tiles@ == old(self).board.tiles@ + old(self).selected_in_hand()
                &&& final(self).hand.tiles@ == old(self).hand_after_move()
                &&& final(self).wall.tiles@ == old(self).wall_after_move()
                &&& final(self).board.tiles@.len() == old(self).board.tiles@.len() + old(
                    self,
                ).selected_in_hand().len()
                &&& final(self).hand.tiles@.len() == old(self).hand.tiles@.len() - old(
                    self,
                ).selected_in_hand().len() + old(self).replacements()
                &&& final(self).wall.tiles@.len() == old(self).wall.tiles@.len() - old(
                    self,
                ).replacements()
                &&& final(self).discarded@ == old(self).discarded@
                &&& final(self).selected.flags@ == old(self).flags_cleared()
                &&& final(self).state == (GameState {
                    plays_remaining: (old(self).state.plays_remaining - 1) as u32,
                    ..old(self).state
                })
                &&& final(self).tiles@ == old(self).tiles@
                &&& final(self).app_state == old(self).app_state
                &&& final(self).phase == old(self).phase
            },
    {
        if self.state.plays_remaining == 0 {
            return;
        }
        let (moved, kept) = self.split_selection();
        if moved.len() == 0 {
            return;
        }
        let ghost pre = *self;
        proof {
            self.lemma_move_preserves(moved@, kept@);
        }
        move_to(&mut self.board.tiles, &mut self.selected.flags, &moved);
        self.hand.tiles = kept;
        let draw_count = if moved.len() < self.wall.tiles.len() {
            moved.len()
        } else {
            self.wall.tiles.len()
        };
        draw_tiles(&mut self.wall.tiles, &mut self.hand.tiles, draw_count);
        self.state.plays_remaining = self.state.plays_remaining - 1;
        proof {
            assert(self.selected.flags@ =~= pre.flags_cleared());
            let w = pre.wall_after_move();
            let dr = drawn(pre.wall.tiles@, pre.replacements());
            lemma_to_multiset_4(w, kept@ + dr, pre.board.tiles@ + moved@, pre.discarded@);
            lemma_to_multiset_4(
                pre.wall.tiles@,
                pre.hand.tiles@,
                pre.board.tiles@,
                pre.discarded@,
            );
            vstd::seq_lib::lemma_multiset_commutative(kept@, dr);
            vstd::seq_lib::lemma_multiset_commutative(pre.board.tiles@, moved@);
            vstd::seq_lib::lemma_multiset_commutative(moved@, kept@);
            vstd::seq_lib::lemma_multiset_commutative(w, dr);
            assert(self.all_handles().to_multiset() =~= pre.all_handles().to_multiset());
        }
    }

    /// Discards the selected tiles of the hand: they leave the hand for the
    /// discards with their flags cleared, one replacement per tile is drawn
    /// while the pile lasts, and one discard is spent. Nothing happens without
    /// a discard left or a selected tile in the hand.
    pub fn on_discard_tiles(&mut self)
        requires
            old(self).wf(),
        ensures
            final(self).wf(),
            old(self).state.discards_remaining == 0 || old(self).selected_in_hand().len() == 0
                ==> *final(self) == *old(self),
            old(self).state.discards_remaining > 0 && old(self).selected_in_hand().len() > 0 ==> {
                &&& final(self).discarded@ == old(self).discarded@ + old(self).selected_in_hand()
                &&& final(self).hand.tiles@ == old(self).hand_after_move()
                &&& final(self).wall.tiles@ == old(self).wall_after_move()
                &&& final(self).board.tiles@ == old(self).board.tiles@
                &&& final(self).selected.flags@ == old(self).flags_cleared()
                &&& final(self).state == (GameState {
                    discards_remaining: (old(self).state.discards_remaining - 1) as u32,
                    ..old(self).state
                })
                &&& final(self).tiles@ == old(self).tiles@
                &&& final(self).app_state == old(self).app_state
                &&& final(self).phase == old(self).phase
            },
    {
        if self.state.discards_remaining == 0 {
            return;
        }
        let (moved, kept) = self.split_selection();
        if moved.len() == 0 {
            return;
        }
        let ghost pre = *self;
        proof {
            self.lemma_move_preserves(moved@, kept@);
        }
        move_to(&mut self.discarded, &mut self.selected.flags, &moved);
        self.hand.tiles = kept;
        let draw_count = if moved.len() < self.wall.tiles.len() {
            moved.len()
        } else {
            self.wall.tiles.len()
        };
        draw_tiles(&mut self.wall.tiles, &mut self.hand.tiles, draw_count);
        self.state.discards_remaining = self.state.discards_remaining - 1;
        proof {
            assert(self.selected.flags@ =~= pre.flags_cleared());
            let w = pre.wall_after_move();
            let dr = drawn(pre.wall.tiles@, pre.replacements());
            lemma_to_multiset_4(w, kept@ + dr, pre.board.tiles@, pre.discarded@ + moved@);
            lemma_to_multiset_4(
                pre.wall.tiles@,
                pre.hand.tiles@,
                pre.board.tiles@,
                pre.discarded@,
            );
            vstd::seq_lib::lemma_multiset_commutative(kept@, dr);
            vstd::seq_lib::lemma_multiset_commutative(pre.discarded@, moved@);
            vstd::seq_lib::lemma_multiset_commutative(moved@, kept@);
            vstd::seq_lib::lemma_multiset_commutative(w, dr);
            assert(self.all_handles().to_multiset() =~= pre.all_handles().to_multiset());
        }
    }

    /// The facts on the selected and unselected handles that a move relies on.
    proof fn lemma_move_preserves(&self, moved: Seq<usize>, kept: Seq<usize>)
        requires
            self.wf(),
            moved == self.selected_in_hand(),
            kept == unpicked(self.hand.tiles@, self.selected.flags@),
        ensures
            forall|i: int| 0 <= i < moved.len() ==> #[trigger] moved[i] < self.selected.flags@.len(),
            moved.len() + kept.len() == self.hand.tiles@.len(),
            (moved + kept).to_multiset() == self.hand.tiles@.to_multiset(),
            forall|x: usize| #[trigger] moved.contains(x) <==> self.hand.tiles@.contains(x)
                && self.selected.flags@[x as int],
            0 <= self.replacements() <= self.wall.tiles@.len(),
            (self.wall_after_move() + drawn(self.wall.tiles@, self.replacements())).to_multiset()
                == self.wall.tiles@.to_multiset(),
    {
        lemma_handles_bound(*self);
        lemma_pick_split(self.hand.tiles@, self.selected.flags@);
        assert forall|i: int| 0 <= i < moved.len() implies #[trigger] moved[i]
            < self.selected.flags@.len() by {
            assert(moved.contains(moved[i]));
        }
        lemma_draw_split(self.wall.tiles@, self.replacements());
    }
}

/// In a well-formed session each tile of the arena stands in exactly one of
/// the pile, the hand, the play area and the discards, and no other handle
/// stands in any of them.
pub proof fn lemma_each_tile_once(s: Session, h: usize)
    requires
        s.wf(),
    ensures
        h < s.tiles@.len() ==> s.all_handles().to_multiset().count(h) == 1,
        h >= s.tiles@.len() ==> s.all_handles().to_multiset().count(h) == 0,
{
    let n = s.tiles@.len();
    let hs = handles(n);
    assert(hs.no_duplicates());
    hs.lemma_multiset_has_no_duplicates();
    if h < n {
        assert(hs[h as int] == h);
        assert(hs.contains(h));
    } else {
        assert(!hs.contains(h));
    }
}

fn holds(v: &Vec<usize>, h: usize) -> (r: bool)
    ensures
        r == v@.contains(h),
{
    let mut i: usize = 0;
    while i < v.len()
        invariant
            i <= v@.len(),
            forall|k: int| 0 <= k < i ==> v@[k] != h,
        decreases v@.len() - i,
    {
        if v[i] == h {
            return true;
        }
        i = i + 1;
    }
    false
}

/// Relies on rand's `SliceRandom::shuffle`, driven by `StdRng` seeded from
/// `seed`: it only swaps elements, so the result holds the same handles.
#[verifier::external_body]
fn shuffled(order: Vec<usize>, seed: u64) -> (r: Vec<usize>)
    ensures
        r@.to_multiset() == order@.to_multiset(),
{
    let mut v = order;
    let mut rng = rand::rngs::StdRng::seed_from_u64(seed);
    v.shuffle(&mut rng);
    v
}

/// Play area size at which the round is scored.
pub const PLAY_AREA_CAPACITY: usize = 14;

impl Session {
    /// The identities of the tiles in the play area, in order.
    pub open spec fn board_ids(&self) -> Seq<TileId> {
        Seq::new(
            self.board.tiles@.len(),
            |k: int| self.tiles@[self.board.tiles@[k] as int].id,
        )
    }

    /// The pattern that the play area reports.
    pub open spec fn board_pattern(&self) -> Pattern {
        classify(self.board_ids().to_multiset())
    }

    pub open spec fn board_base(&self) -> u32 {
        self.board_pattern().base_for(self.board.tiles@.len())
    }

    /// The collections, the arena and the flags are those of `other`.
    pub open spec fn same_tiles(&self, other: &Session) -> bool {
        &&& self.tiles@ == other.tiles@
        &&& self.wall.tiles@ == other.wall.tiles@
        &&& self.hand.tiles@ == other.hand.tiles@
        &&& self.board.tiles@ == other.board.tiles@
        &&& self.discarded@ == other.discarded@
        &&& self.selected.flags@ == other.selected.flags@
    }

    /// Nothing is held: no tiles, no handles, no flags.
    pub open spec fn is_cleared(&self) -> bool {
        &&& self.tiles@.len() == 0
        &&& self.wall.tiles@.len() == 0
        &&& self.hand.tiles@.len() == 0
        &&& self.board.tiles@.len() == 0
        &&& self.discarded@.len() == 0
        &&& self.selected.flags@.len() == 0
    }

    /// The collection that holds a handle.
    pub open spec fn location(&self, h: usize) -> Option<TileLocation> {
        if self.wall.tiles@.contains(h) {
            Some(TileLocation::Wall)
        } else if self.hand.tiles@.contains(h) {
            Some(TileLocation::Hand)
        } else if self.board.tiles@.contains(h) {
            Some(TileLocation::Board)
        } else if self.discarded@.contains(h) {
            Some(TileLocation::Discarded)
        } else {
            None
        }
    }

    /// Where a tile is; `None` for a handle outside the arena.
    pub fn location_of(&self, handle: usize) -> (r: Option<TileLocation>)
        ensures
            r == self.location(handle),
    {
        if holds(&self.wall.tiles, handle) {
            Some(TileLocation::Wall)
        } else if holds(&self.hand.tiles, handle) {
            Some(TileLocation::Hand)
        } else if holds(&self.board.tiles, handle) {
            Some(TileLocation::Board)
        } else if holds(&self.discarded, handle) {
            Some(TileLocation::Discarded)
        } else {
            None
        }
    }

    /// A session at the menu: the starting record and no tiles.
    pub fn new() -> (r: Session)
        ensures
            r.wf(),
            r.is_cleared(),
            r.state == initial_state(),
            r.app_state == AppState::Menu,
            r.phase == PlayPhase::Selecting,
    {
        let r = Session {
            state: GameState::default(),
            tiles: Vec::new(),
            wall: TileWall { tiles: Vec::new() },
            hand: PlayerHand { tiles: Vec::new() },
            board: PlayBoard { tiles: Vec::new() },
            discarded: Vec::new(),
            selected: TileSelected { flags: Vec::new() },
            app_state: AppState::Menu,
            phase: PlayPhase::Selecting,
        };
        assert(r.all_handles() =~= handles(0));
        r
    }

    /// Removes every tile: the arena, the four collections and the flags.
    pub fn cleanup_tiles(&mut self)
        ensures
            final(self).wf(),
            final(self).is_cleared(),
            final(self).state == old(self).state,
            final(self).app_state == old(self).app_state,
            final(self).phase == old(self).phase,
    {
        self.tiles.clear();
        self.wall.tiles.clear();
        self.hand.tiles.clear();
        self.board.tiles.clear();
        self.discarded.clear();
        self.selected.flags.clear();
        assert(self.all_handles() =~= handles(0));
    }

    /// Starts a new game: the starting record, the full set of 136 tiles
    /// shuffled into the pile by `seed`, and the hand dealt from the pile's
    /// end.
    pub fn request_new_game(&mut self, seed: u64)
        ensures
            final(self).wf(),
            final(self).state == initial_state(),
            final(self).tiles@.len() == FULL_SET_SIZE,
            forall|k: int| 0 <= k < FULL_SET_SIZE ==> #[trigger] final(self).tiles@[k] == full_set_tile(k),
            final(self).hand.tiles@.len() == HAND_SIZE,
            final(self).wall.tiles@.len() == FULL_SET_SIZE - HAND_SIZE,
            final(self).board.tiles@.len() == 0,
            final(self).discarded@.len() == 0,
            forall|h: int| 0 <= h < FULL_SET_SIZE ==> !#[trigger] final(self).selected.flags@[h],
            final(self).app_state == AppState::Playing,
            final(self).phase == PlayPhase::Selecting,
    {
        self.state.reset_for_new_game();
        self.tiles = Tile::generate_full_set();
        let mut order: Vec<usize> = Vec::new();
        let mut i: usize = 0;
        while i < FULL_SET_SIZE
            invariant
                i <= FULL_SET_SIZE,
                order@ == handles(i as nat),
            decreases FULL_SET_SIZE - i,
        {
            order.push(i);
            i = i + 1;
            assert(order@ =~= handles(i as nat));
        }
        let mut wall = shuffled(order, seed);
        let mut hand: Vec<usize> = Vec::new();
        let draw_count = if self.state.hand_size < wall.len() {
            self.state.hand_size
        } else {
            wall.len()
        };
        proof {
            assert(wall@.len() == wall@.to_multiset().len());
            assert(handles(FULL_SET_SIZE as nat).len() == handles(
                FULL_SET_SIZE as nat,
            ).to_multiset().len());
        }
        let ghost wall0 = wall@;
        draw_tiles(&mut wall, &mut hand, draw_count);
        self.wall.tiles = wall;
        self.hand.tiles = hand;
        self.board.tiles = Vec::new();
        self.discarded = Vec::new();
        self.selected.flags = vec![false; FULL_SET_SIZE];
        self.app_state = AppState::Playing;
        self.phase = PlayPhase::Selecting;
        proof {
            lemma_draw_split(wall0, draw_count as int);
            lemma_to_multiset_4(
                self.wall.tiles@,
                self.hand.tiles@,
                self.board.tiles@,
                self.discarded@,
            );
            assert(self.hand.tiles@ =~= Seq::<usize>::empty() + drawn(wall0, draw_count as int));
            assert(self.all_handles().to_multiset() =~= wall0.to_multiset());
            assert forall|k: int| 0 <= k < self.tiles@.len() implies (
            #[trigger] self.tiles@[k]).id.wf() by {
                lemma_full_set_contents(tile_at(0), 0, k, k);
            }
        }
    }

    /// Tears the session down and returns to the menu; the record is kept.
    pub fn request_return_to_menu(&mut self)
        ensures
            final(self).wf(),
            final(self).is_cleared(),
            final(self).state == old(self).state,
            final(self).app_state == AppState::Menu,
            final(self).phase == PlayPhase::Selecting,
    {
        self.cleanup_tiles();
        self.app_state = AppState::Menu;
        self.phase = PlayPhase::Selecting;
    }

    /// Leaves the game-over screen for the menu with the starting record.
    pub fn dismiss_game_over(&mut self)
        requires
            old(self).wf(),
        ensures
            final(self).wf(),
            final(self).same_tiles(old(self)),
            final(self).state == initial_state(),
            final(self).app_state == AppState::Menu,
            final(self).phase == old(self).phase,
    {
        self.state = GameState::default();
        self.app_state = AppState::Menu;
    }

    /// Flips the selected flag of a tile of the hand; a handle that is not in
    /// the hand changes nothing.
    pub fn toggle_selection(&mut self, handle: usize)
        requires
            old(self).wf(),
        ensures
            final(self).wf(),
            old(self).hand.tiles@.contains(handle) ==> final(self).selected.flags@ == old(
                self,
            ).selected.flags@.update(handle as int, !old(self).selected.flags@[handle as int]),
            !old(self).hand.tiles@.contains(handle) ==> final(self).selected.flags@ == old(
                self,
            ).selected.flags@,
            final(self).tiles@ == old(self).tiles@,
            final(self).wall.tiles@ == old(self).wall.tiles@,
            final(self).hand.tiles@ == old(self).hand.tiles@,
            final(self).board.tiles@ == old(self).board.tiles@,
            final(self).discarded@ == old(self).discarded@,
            final(self).state == old(self).state,
            final(self).app_state == old(self).app_state,
            final(self).phase == old(self).phase,
    {
        proof {
            lemma_handles_bound(*self);
        }
        let ghost pre = *self;
        let mut i: usize = 0;
        while i < self.hand.tiles.len()
            invariant
                *self == pre,
                pre == *old(self),
                pre.wf(),
                forall|k: int| 0 <= k < pre.hand.tiles@.len() ==> #[trigger] pre.hand.tiles@[k] < pre.tiles@.len(),
                i <= self.hand.tiles@.len(),
                forall|k: int| 0 <= k < i ==> self.hand.tiles@[k] != handle,
            decreases self.hand.tiles@.len() - i,
        {
            if self.hand.tiles[i] == handle {
                let selected = self.selected.flags[handle];
                self.selected.flags[handle] = !selected;
                return;
            }
            i = i + 1;
        }
    }

    /// Moves to scoring once the play area holds fourteen tiles or no play
    /// is left, while selecting in a game.
    pub fn check_phase_transition(&mut self)
        ensures
            final(self).same_tiles(old(self)),
            final(self).state == old(self).state,
            final(self).app_state == old(self).app_state,
            final(self).phase == if old(self).app_state == AppState::Playing && old(self).phase
                == PlayPhase::Selecting && (old(self).board.tiles@.len() >= PLAY_AREA_CAPACITY
                || old(self).state.plays_remaining == 0) {
                PlayPhase::Scoring
            } else {
                old(self).phase
            },
    {
        if self.app_state == AppState::Playing && self.phase == PlayPhase::Selecting {
            if self.board.tiles.len() >= PLAY_AREA_CAPACITY || self.state.plays_remaining == 0 {
                self.phase = PlayPhase::Scoring;
            }
        }
    }

    /// Evaluates the play area once: records base and multiplier, adds the
    /// total to the score, reports whether the target is reached, and moves
    /// to the round result.
    pub fn calculate_score(&mut self) -> (r: (ScoreCalculatedEvent, RoundEndedEvent))
        requires
            old(self).wf(),
            old(self).state.current_score + FULL_SET_SIZE <= u32::MAX,
        ensures
            final(self).wf(),
            final(self).same_tiles(old(self)),
            final(self).state == (GameState {
                base_ante: old(self).board_base(),
                multiplier: old(self).board_pattern().mult(),
                current_score: (old(self).state.current_score + old(self).board_base() * old(
                    self,
                ).board_pattern().mult()) as u32,
                ..old(self).state
            }),
            r.0.base == old(self).board_base(),
            r.0.multiplier == old(self).board_pattern().mult(),
            r.0.total == old(self).board_base() * old(self).board_pattern().mult(),
            r.0.pattern_name@ == old(self).board_pattern().name_chars(),
            r.1.passed == (final(self).state.current_score >= final(self).state.target_score),
            final(self).app_state == old(self).app_state,
            final(self).phase == PlayPhase::RoundResult,
    {
        proof {
            lemma_handles_bound(*self);
        }
        let mut ids: Vec<TileId> = Vec::new();
        let mut i: usize = 0;
        while i < self.board.tiles.len()
            invariant
                i <= self.board.tiles@.len(),
                forall|k: int| 0 <= k < self.board.tiles@.len() ==> #[trigger] self.board.tiles@[k]
                    < self.tiles@.len(),
                ids@ == self.board_ids().take(i as int),
            decreases self.board.tiles@.len() - i,
        {
            let h = self.board.tiles[i];
            ids.push(self.tiles[h].id);
            i = i + 1;
            assert(ids@ =~= self.board_ids().take(i as int));
        }
        proof {
            assert(ids@ =~= self.board_ids());
        }
        let result = evaluate_hand(ids.as_slice());
        proof {
            assert(result.base * result.multiplier <= FULL_SET_SIZE) by {
                assert(self.board.tiles@.len() <= FULL_SET_SIZE);
                assert(ids@.len() == self.board.tiles@.len());
            }
        }
        let total = result.total();
        self.state.base_ante = result.base;
        self.state.multiplier = result.multiplier;
        self.state.current_score = self.state.current_score + total;
        let passed = self.state.current_score >= self.state.target_score;
        self.phase = PlayPhase::RoundResult;
        (
            ScoreCalculatedEvent {
                base: result.base,
                multiplier: result.multiplier,
                total,
                pattern_name: result.pattern_name,
            },
            RoundEndedEvent { passed },
        )
    }

    /// Settles the sub-round. Reaching the target advances the stage (past
    /// the Boss, the level), resets the record for it, hides the play area
    /// and returns to selecting; falling short ends the game, and the tiles
    /// are removed.
    pub fn evaluate_round_result(&mut self) -> (passed: bool)
        requires
            old(self).wf(),
            old(self).state.current_score >= old(self).state.target_score ==> {
                &&& old(self).state.sub_round == SubRound::Boss ==> old(self).state.level < u32::MAX
                &&& target_fits(advanced(old(self).state))
            },
        ensures
            final(self).wf(),
            passed == (old(self).state.current_score >= old(self).state.target_score),
            passed ==> {
                &&& final(self).state == sub_round_reset(advanced(old(self).state))
                &&& final(self).board.tiles@.len() == 0
                &&& final(self).discarded@ == old(self).discarded@ + old(self).board.tiles@
                &&& final(self).wall.tiles@ == old(self).wall.tiles@
                &&& final(self).hand.tiles@ == old(self).hand.tiles@
                &&& final(self).tiles@ == old(self).tiles@
                &&& final(self).selected.flags@ == old(self).selected.flags@
                &&& final(self).app_state == old(self).app_state
                &&& final(self).phase == PlayPhase::Selecting
            },
            !passed ==> {
                &&& final(self).state == old(self).state
                &&& final(self).is_cleared()
                &&& final(self).app_state == AppState::GameOver
                &&& final(self).phase == old(self).phase
            },
    {
        let passed = self.state.current_score >= self.state.target_score;
        if passed {
            self.state.advance_sub_round();
            self.state.reset_for_sub_round();
            let ghost pre = *self;
            self.discarded.append(&mut self.board.tiles);
            self.phase = PlayPhase::Selecting;
            proof {
                lemma_to_multiset_4(
                    self.wall.tiles@,
                    self.hand.tiles@,
                    self.board.tiles@,
                    self.discarded@,
                );
                lemma_to_multiset_4(
                    pre.wall.tiles@,
                    pre.hand.tiles@,
                    pre.board.tiles@,
                    pre.discarded@,
                );
                vstd::seq_lib::lemma_multiset_commutative(pre.discarded@, pre.board.tiles@);
                assert(self.all_handles().to_multiset() =~= pre.all_handles().to_multiset());
            }
        } else {
            self.cleanup_tiles();
            self.app_state = AppState::GameOver;
        }
        passed
    }
}

} // verus!
