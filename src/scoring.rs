use vstd::multiset::Multiset;
use vstd::prelude::*;

use crate::melds::{
    as_ints, check_standard, is_standard, lemma_sum_prefix_le, lemma_sum_update,
    sum_upto, take_pair, total,
};
use crate::tile::{lemma_index_round_trip, numbered, tile_at, TileId, TileSuit};

verus! {

broadcast use vstd::seq_lib::group_to_multiset_ensures;

/// The 34-slot count array of a multiset of identities.
pub open spec fn hand_counts(m: Multiset<TileId>) -> Seq<int> {
    Seq::new(34, |j: int| m.count(tile_at(j)) as int)
}

/// How many of the first `n` positions hold at least `k` tiles.
pub open spec fn count_at_least(c: Seq<int>, k: int, n: int) -> int
    decreases n,
{
    if n <= 0 {
        0
    } else {
        count_at_least(c, k, n - 1) + if c[n - 1] >= k {
            1int
        } else {
            0int
        }
    }
}

/// Seven distinct pairs and fourteen tiles.
pub open spec fn is_seven_pairs(c: Seq<int>) -> bool {
    count_at_least(c, 2, 34) == 7 && total(c) == 14
}

/// The terminals and honors: 1 and 9 of each numbered suit, every wind and
/// every dragon.
pub open spec fn orphan(j: int) -> bool {
    j == 0 || j == 8 || j == 9 || j == 17 || j == 18 || j == 26 || 27 <= j < 34
}

/// How many of the first `n` positions are terminal or honor positions that
/// hold at least two tiles.
pub open spec fn orphan_pairs(c: Seq<int>, n: int) -> int
    decreases n,
{
    if n <= 0 {
        0
    } else {
        orphan_pairs(c, n - 1) + if orphan(n - 1) && c[n - 1] >= 2 {
            1int
        } else {
            0int
        }
    }
}

/// Every terminal and honor at least once, exactly one of them at least
/// twice, nothing else, fourteen tiles.
pub open spec fn is_thirteen_orphans(c: Seq<int>) -> bool {
    &&& total(c) == 14
    &&& forall|j: int| 0 <= j < 34 && orphan(j) ==> c[j] >= 1
    &&& orphan_pairs(c, 34) == 1
    &&& forall|j: int| 0 <= j < 34 && !orphan(j) ==> c[j] == 0
}

/// A standard hand with no position holding three tiles or more.
pub open spec fn is_pinfu(c: Seq<int>) -> bool {
    is_standard(c) && forall|j: int| 0 <= j < 34 ==> c[j] < 3
}

/// All nine values of the numbered suit whose band starts at `s`.
pub open spec fn full_suit(c: Seq<int>, s: int) -> bool {
    forall|j: int| s <= j < s + 9 ==> c[j] >= 1
}

pub open spec fn has_straight(c: Seq<int>) -> bool {
    full_suit(c, 0) || full_suit(c, 9) || full_suit(c, 18)
}

/// A standard hand where, once some pair is taken out, every position holds
/// no tile or exactly three.
pub open spec fn is_toitoi(c: Seq<int>) -> bool {
    &&& is_standard(c)
    &&& exists|p: int|
        0 <= p < 34 && c[p] >= 2 && forall|j: int|
            0 <= j < 34 ==> (#[trigger] take_pair(c, p)[j] == 0 || take_pair(c, p)[j] == 3)
}

pub open spec fn all_simples(m: Multiset<TileId>) -> bool {
    forall|t: TileId| m.count(t) > 0 ==> t.simple()
}

/// At least one honor, and every tile that is not an honor of one numbered
/// suit (a hand of honors only qualifies).
pub open spec fn is_honitsu(m: Multiset<TileId>) -> bool {
    &&& exists|t: TileId| m.count(t) > 0 && t.honor()
    &&& exists|s: TileSuit|
        numbered(s) && forall|t: TileId| m.count(t) > 0 ==> t.honor() || t.suit == s
}

/// A nonempty hand whose tiles all belong to one numbered suit.
pub open spec fn is_chinitsu(m: Multiset<TileId>) -> bool {
    m.len() > 0 && exists|s: TileSuit| numbered(s) && forall|t: TileId| m.count(t) > 0 ==> t.suit == s
}

/// The recognised patterns, and the two results for hands without one.
#[derive(Clone, Copy, Debug, PartialEq, Eq, Structural)]
pub enum Pattern {
    NoHand,
    NoPattern,
    StandardWin,
    Pinfu,
    Tanyao,
    Straight,
    Toitoi,
    SevenPairs,
    Honitsu,
    Chinitsu,
    ThirteenOrphans,
}

/// The pattern that a hand reports: the first in order of priority that it
/// satisfies.
pub open spec fn classify(m: Multiset<TileId>) -> Pattern {
    let c = hand_counts(m);
    if m.len() == 0 {
        Pattern::NoHand
    } else if is_thirteen_orphans(c) {
        Pattern::ThirteenOrphans
    } else if is_standard(c) && is_chinitsu(m) {
        Pattern::Chinitsu
    } else if is_standard(c) && is_honitsu(m) {
        Pattern::Honitsu
    } else if is_seven_pairs(c) {
        Pattern::SevenPairs
    } else if is_toitoi(c) {
        Pattern::Toitoi
    } else if is_standard(c) && has_straight(c) {
        Pattern::Straight
    } else if is_standard(c) && all_simples(m) {
        Pattern::Tanyao
    } else if is_pinfu(c) {
        Pattern::Pinfu
    } else if is_standard(c) {
        Pattern::StandardWin
    } else {
        Pattern::NoPattern
    }
}

impl Pattern {
    pub open spec fn name_chars(self) -> Seq<char> {
        match self {
            Pattern::NoHand => "无牌型"@,
            Pattern::NoPattern => "未和牌"@,
            Pattern::StandardWin => "和了"@,
            Pattern::Pinfu => "平和"@,
            Pattern::Tanyao => "断幺九"@,
            Pattern::Straight => "一气通贯"@,
            Pattern::Toitoi => "对对和"@,
            Pattern::SevenPairs => "七对子"@,
            Pattern::Honitsu => "混一色"@,
            Pattern::Chinitsu => "清一色"@,
            Pattern::ThirteenOrphans => "国士无双"@,
        }
    }

    pub open spec fn mult(self) -> u32 {
        match self {
            Pattern::ThirteenOrphans => 13,
            Pattern::Chinitsu => 8,
            Pattern::Honitsu => 5,
            Pattern::SevenPairs => 4,
            Pattern::Toitoi => 4,
            Pattern::Straight => 3,
            Pattern::Tanyao => 2,
            _ => 1,
        }
    }

    /// Base score of the pattern for a hand of `n` tiles.
    pub open spec fn base_for(self, n: nat) -> u32 {
        match self {
            Pattern::NoHand => 0,
            Pattern::NoPattern => n as u32,
            _ => 10,
        }
    }

    pub fn name(&self) -> (r: String)
        ensures
            r@ == self.name_chars(),
    {
        match self {
            Pattern::NoHand => "无牌型".to_owned(),
            Pattern::NoPattern => "未和牌".to_owned(),
            Pattern::StandardWin => "和了".to_owned(),
            Pattern::Pinfu => "平和".to_owned(),
            Pattern::Tanyao => "断幺九".to_owned(),
            Pattern::Straight => "一气通贯".to_owned(),
            Pattern::Toitoi => "对对和".to_owned(),
            Pattern::SevenPairs => "七对子".to_owned(),
            Pattern::Honitsu => "混一色".to_owned(),
            Pattern::Chinitsu => "清一色".to_owned(),
            Pattern::ThirteenOrphans => "国士无双".to_owned(),
        }
    }

    pub fn multiplier(&self) -> (r: u32)
        ensures
            r == self.mult(),
    {
        match self {
            Pattern::ThirteenOrphans => 13,
            Pattern::Chinitsu => 8,
            Pattern::Honitsu => 5,
            Pattern::SevenPairs => 4,
            Pattern::Toitoi => 4,
            Pattern::Straight => 3,
            Pattern::Tanyao => 2,
            _ => 1,
        }
    }
}

/// Every identity of the slice lies in its suit's range.
pub open spec fn all_wf(tiles: Seq<TileId>) -> bool {
    forall|i: int| 0 <= i < tiles.len() ==> #[trigger] tiles[i].wf()
}

proof fn lemma_in_hand(s: Seq<TileId>, k: int)
    requires
        0 <= k < s.len(),
    ensures
        s.to_multiset().count(s[k]) > 0,
{
    assert(s.contains(s[k]));
}

proof fn lemma_from_hand(s: Seq<TileId>, t: TileId) -> (k: int)
    requires
        s.to_multiset().count(t) > 0,
    ensures
        0 <= k < s.len(),
        s[k] == t,
{
    assert(s.contains(t));
    choose|k: int| 0 <= k < s.len() && s[k] == t
}

/// Counts how many tiles of each identity the slice holds.
fn build_count_array(tiles: &[TileId]) -> (counts: [usize; 34])
    requires
        all_wf(tiles@),
    ensures
        as_ints(counts@) == hand_counts(tiles@.to_multiset()),
        total(as_ints(counts@)) == tiles@.len(),
{
    let mut counts = [0usize; 34];
    assert(forall|j: int| 0 <= j < 34 ==> counts@[j] == 0);
    proof {
        assert(sum_upto(as_ints(counts@), 34) == 0) by {
            assert forall|n: int| 0 <= n <= 34 implies sum_upto(as_ints(counts@), n) == 0 by {
                lemma_zero_sum(as_ints(counts@), n);
            }
        }
    }
    proof {
        assert(tiles@.take(0) =~= Seq::<TileId>::empty());
        assert forall|j: int| 0 <= j < 34 implies counts@[j] as int == #[trigger] tiles@.take(
            0,
        ).to_multiset().count(tile_at(j)) by {
            assert(tiles@.take(0).to_multiset().len() == 0);
        }
    }
    let mut i: usize = 0;
    while i < tiles.len()
        invariant
            i <= tiles@.len(),
            all_wf(tiles@),
            forall|j: int|
                0 <= j < 34 ==> counts@[j] as int == #[trigger] tiles@.take(i as int).to_multiset().count(
                    tile_at(j),
                ),
            forall|j: int| 0 <= j < 34 ==> #[trigger] counts@[j] <= i,
            total(as_ints(counts@)) == i,
        decreases tiles@.len() - i,
    {
        let t = tiles[i];
        let idx = t.to_index();
        let ghost before = as_ints(counts@);
        counts[idx] = counts[idx] + 1;
        proof {
            assert(as_ints(counts@) =~= before.update(idx as int, before[idx as int] + 1));
            lemma_sum_update(before, idx as int, before[idx as int] + 1, 34);
            assert(tiles@.take(i + 1) =~= tiles@.take(i as int).push(t));
            let ms = tiles@.take(i as int).to_multiset();
            assert(tiles@.take(i + 1).to_multiset() =~= ms.insert(t));
            assert forall|j: int| 0 <= j < 34 implies counts@[j] as int == #[trigger] tiles@.take(
                i + 1,
            ).to_multiset().count(tile_at(j)) by {
                lemma_index_round_trip(t, j);
                assert(tile_at(j) == t <==> j == idx);
                assert(counts@[j] as int == before[j] + if j == idx {
                    1int
                } else {
                    0int
                });
                assert(before[j] == ms.count(tile_at(j)));
            }
        }
        i = i + 1;
    }
    proof {
        assert(tiles@.take(tiles@.len() as int) =~= tiles@);
        assert(as_ints(counts@) =~= hand_counts(tiles@.to_multiset()));
    }
    counts
}

proof fn lemma_zero_sum(c: Seq<int>, n: int)
    requires
        0 <= n <= c.len(),
        forall|j: int| 0 <= j < c.len() ==> c[j] == 0,
    ensures
        sum_upto(c, n) == 0,
    decreases n,
{
    if n > 0 {
        lemma_zero_sum(c, n - 1);
    }
}

fn sum_counts(counts: &[usize; 34]) -> (r: usize)
    requires
        total(as_ints(counts@)) <= usize::MAX,
    ensures
        r == total(as_ints(counts@)),
{
    let ghost c = as_ints(counts@);
    let mut sum: usize = 0;
    for j in 0..34
        invariant
            c == as_ints(counts@),
            total(c) <= usize::MAX,
            sum == sum_upto(c, j as int),
    {
        proof {
            lemma_sum_prefix_le(c, j + 1, 34);
        }
        sum = sum + counts[j];
    }
    sum
}

fn check_seven_pairs(counts: &[usize; 34]) -> (r: bool)
    requires
        total(as_ints(counts@)) <= usize::MAX,
    ensures
        r == is_seven_pairs(as_ints(counts@)),
{
    let ghost c = as_ints(counts@);
    let mut pairs: usize = 0;
    for j in 0..34
        invariant
            c == as_ints(counts@),
            pairs == count_at_least(c, 2, j as int),
            pairs <= j,
    {
        if counts[j] >= 2 {
            pairs = pairs + 1;
        }
    }
    let total = sum_counts(counts);
    pairs == 7 && total == 14
}

fn is_orphan_index(j: usize) -> (r: bool)
    ensures
        r == orphan(j as int),
{
    j == 0 || j == 8 || j == 9 || j == 17 || j == 18 || j == 26 || (27 <= j && j < 34)
}

fn check_thirteen_orphans(counts: &[usize; 34]) -> (r: bool)
    requires
        total(as_ints(counts@)) <= usize::MAX,
    ensures
        r == is_thirteen_orphans(as_ints(counts@)),
{
    let ghost c = as_ints(counts@);
    let total = sum_counts(counts);
    if total != 14 {
        return false;
    }
    for j in 0..34
        invariant
            c == as_ints(counts@),
            forall|q: int| 0 <= q < j && orphan(q) ==> c[q] >= 1,
    {
        if is_orphan_index(j) && counts[j] < 1 {
            return false;
        }
    }
    let mut pair_count: usize = 0;
    for j in 0..34
        invariant
            c == as_ints(counts@),
            pair_count == orphan_pairs(c, j as int),
            pair_count <= j,
    {
        if is_orphan_index(j) && counts[j] >= 2 {
            pair_count = pair_count + 1;
        }
    }
    let mut no_others = true;
    for j in 0..34
        invariant
            c == as_ints(counts@),
            no_others == forall|q: int| 0 <= q < j && !orphan(q) ==> c[q] == 0,
    {
        if !is_orphan_index(j) && counts[j] != 0 {
            no_others = false;
        }
    }
    pair_count == 1 && no_others
}

/// Whether every tile of the hand is a simple.
fn check_tanyao(tiles: &[TileId]) -> (r: bool)
    ensures
        r == all_simples(tiles@.to_multiset()),
{
    for i in 0..tiles.len()
        invariant
            forall|k: int| 0 <= k < i ==> (#[trigger] tiles@[k]).simple(),
    {
        if !tiles[i].is_simple() {
            proof {
                assert(tiles@.contains(tiles@[i as int]));
            }
            return false;
        }
    }
    proof {
        assert forall|t: TileId| tiles@.to_multiset().count(t) > 0 implies t.simple() by {
            assert(tiles@.contains(t));
        }
    }
    true
}

fn check_pinfu(counts: &[usize; 34]) -> (r: bool)
    ensures
        r == is_pinfu(as_ints(counts@)),
{
    if !check_standard(counts) {
        return false;
    }
    let ghost c = as_ints(counts@);
    for j in 0..34
        invariant
            c == as_ints(counts@),
            forall|q: int| 0 <= q < j ==> c[q] < 3,
    {
        if counts[j] >= 3 {
            assert(c[j as int] >= 3);
            return false;
        }
    }
    true
}

fn check_straight(counts: &[usize; 34]) -> (r: bool)
    ensures
        r == has_straight(as_ints(counts@)),
{
    let ghost c = as_ints(counts@);
    for k in 0..3
        invariant
            c == as_ints(counts@),
            k > 0 ==> !full_suit(c, 0),
            k > 1 ==> !full_suit(c, 9),
            k > 2 ==> !full_suit(c, 18),
    {
        let suit_start: usize = 9 * k;
        let mut has_straight = true;
        for i in 0..9
            invariant
                c == as_ints(counts@),
                suit_start == 9 * k,
                k < 3,
                has_straight == forall|j: int| suit_start <= j < suit_start + i ==> c[j] >= 1,
        {
            assert(c[(suit_start + i) as int] == counts@[(suit_start + i) as int] as int);
            if counts[suit_start + i] < 1 {
                has_straight = false;
            }
        }
        if has_straight {
            return true;
        }
    }
    false
}

fn check_toitoi(counts: &[usize; 34]) -> (r: bool)
    ensures
        r == is_toitoi(as_ints(counts@)),
{
    if !check_standard(counts) {
        return false;
    }
    let ghost c = as_ints(counts@);
    for pair_idx in 0..34
        invariant
            c == as_ints(counts@),
            is_standard(c),
            forall|p: int|
                0 <= p < pair_idx && c[p] >= 2 ==> !(forall|j: int|
                    0 <= j < 34 ==> (#[trigger] take_pair(c, p)[j] == 0 || take_pair(c, p)[j] == 3)),
    {
        if counts[pair_idx] >= 2 {
            let mut remaining = *counts;
            remaining[pair_idx] = counts[pair_idx] - 2;
            let ghost rest = take_pair(c, pair_idx as int);
            assert(as_ints(remaining@) =~= rest);
            let mut all_triplets = true;
            for j in 0..34
                invariant
                    rest == as_ints(remaining@),
                    rest == take_pair(c, pair_idx as int),
                    is_standard(c),
                    c[pair_idx as int] >= 2,
                    all_triplets == forall|q: int| 0 <= q < j ==> (rest[q] == 0 || rest[q] == 3),
            {
                assert(rest[j as int] == remaining@[j as int] as int);
                if remaining[j] != 0 && remaining[j] != 3 {
                    all_triplets = false;
                }
            }
            if all_triplets {
                return true;
            }
        }
    }
    false
}

/// Whether the hand holds an honor and its numbered tiles, if any, share one
/// suit.
fn check_honitsu(tiles: &[TileId]) -> (r: bool)
    ensures
        r == is_honitsu(tiles@.to_multiset()),
{
    let ghost m = tiles@.to_multiset();
    let mut has_honors = false;
    for i in 0..tiles.len()
        invariant
            m == tiles@.to_multiset(),
            has_honors == exists|k: int| 0 <= k < i && (#[trigger] tiles@[k]).honor(),
    {
        if tiles[i].is_honor() {
            has_honors = true;
        }
    }
    if !has_honors {
        proof {
            if exists|t: TileId| m.count(t) > 0 && t.honor() {
                let t = choose|t: TileId| m.count(t) > 0 && t.honor();
                let k = lemma_from_hand(tiles@, t);
            }
        }
        return false;
    }
    proof {
        let k = choose|k: int| 0 <= k < tiles@.len() && (#[trigger] tiles@[k]).honor();
        lemma_in_hand(tiles@, k);
    }
    let mut first: Option<TileSuit> = None;
    for i in 0..tiles.len()
        invariant
            m == tiles@.to_multiset(),
            exists|t: TileId| m.count(t) > 0 && t.honor(),
            first is None ==> forall|k: int| 0 <= k < i ==> (#[trigger] tiles@[k]).honor(),
            first matches Some(s) ==> numbered(s) && exists|k: int|
                0 <= k < tiles@.len() && (#[trigger] tiles@[k]).suit == s,
    {
        if first.is_none() && !tiles[i].is_honor() {
            first = Some(tiles[i].suit);
        }
    }
    match first {
        None => {
            proof {
                assert forall|t: TileId| m.count(t) > 0 implies t.honor() || t.suit
                    == TileSuit::Man by {
                    let k = lemma_from_hand(tiles@, t);
                }
                assert(numbered(TileSuit::Man));
                assert(is_honitsu(m));
            }
            true
        },
        Some(s) => {
            let mut same = true;
            for i in 0..tiles.len()
                invariant
                    m == tiles@.to_multiset(),
                    numbered(s),
                    exists|t: TileId| m.count(t) > 0 && t.honor(),
                    exists|k: int| 0 <= k < tiles@.len() && (#[trigger] tiles@[k]).suit == s,
                    same == forall|k: int|
                        0 <= k < i ==> (#[trigger] tiles@[k]).honor() || tiles@[k].suit == s,
            {
                if !tiles[i].is_honor() && tiles[i].suit != s {
                    same = false;
                }
            }
            proof {
                let k0 = choose|k: int| 0 <= k < tiles@.len() && (#[trigger] tiles@[k]).suit == s;
                lemma_in_hand(tiles@, k0);
                if same {
                    assert forall|t: TileId| m.count(t) > 0 implies t.honor() || t.suit == s by {
                        let k = lemma_from_hand(tiles@, t);
                    }
                    assert(is_honitsu(m));
                } else {
                    let k = choose|k: int|
                        0 <= k < tiles@.len() && !((#[trigger] tiles@[k]).honor() || tiles@[k].suit
                            == s);
                    lemma_in_hand(tiles@, k);
                    if is_honitsu(m) {
                        let s2 = choose|s2: TileSuit|
                            numbered(s2) && forall|t: TileId|
                                m.count(t) > 0 ==> t.honor() || t.suit == s2;
                        assert(m.count(tiles@[k0]) > 0);
                        assert(!tiles@[k0].honor());
                        assert(tiles@[k0].honor() || tiles@[k0].suit == s2);
                        assert(tiles@[k].suit == s2);
                    }
                }
            }
            same
        },
    }
}

/// Whether the hand is nonempty and all of one numbered suit.
fn check_chinitsu(tiles: &[TileId]) -> (r: bool)
    ensures
        r == is_chinitsu(tiles@.to_multiset()),
{
    let ghost m = tiles@.to_multiset();
    if tiles.len() == 0 {
        assert(m.len() == 0);
        return false;
    }
    let first = tiles[0].suit;
    proof {
        lemma_in_hand(tiles@, 0);
    }
    if first == TileSuit::Wind || first == TileSuit::Dragon {
        proof {
            if is_chinitsu(m) {
                let s = choose|s: TileSuit|
                    numbered(s) && forall|t: TileId| m.count(t) > 0 ==> t.suit == s;
                assert(tiles@[0].suit == s);
            }
        }
        return false;
    }
    for i in 0..tiles.len()
        invariant
            0 < tiles@.len(),
            m == tiles@.to_multiset(),
            m.count(tiles@[0]) > 0,
            tiles@[0].suit == first,
            forall|k: int| 0 <= k < i ==> (#[trigger] tiles@[k]).suit == first,
    {
        if tiles[i].suit != first {
            proof {
                lemma_in_hand(tiles@, i as int);
                if is_chinitsu(m) {
                    let s = choose|s: TileSuit|
                        numbered(s) && forall|t: TileId| m.count(t) > 0 ==> t.suit == s;
                    assert(tiles@[0].suit == s);
                    assert(tiles@[i as int].suit == s);
                }
            }
            return false;
        }
    }
    proof {
        assert forall|t: TileId| m.count(t) > 0 implies t.suit == first by {
            let k = lemma_from_hand(tiles@, t);
        }
        assert(numbered(first));
        assert(m.len() > 0);
    }
    true
}

/// The result of evaluating a hand: the pattern's name, a base score and a
/// multiplier.
#[derive(Clone, Debug)]
pub struct HandResult {
    pub pattern_name: String,
    pub base: u32,
    pub multiplier: u32,
}

impl HandResult {
    /// Total score: base times multiplier.
    pub fn total(&self) -> (r: u32)
        requires
            self.base * self.multiplier <= u32::MAX,
        ensures
            r == self.base * self.multiplier,
    {
        self.base * self.multiplier
    }
}

/// The pattern that a hand reports.
pub fn classify_hand(tiles: &[TileId]) -> (p: Pattern)
    requires
        all_wf(tiles@),
    ensures
        p == classify(tiles@.to_multiset()),
{
    if tiles.len() == 0 {
        assert(tiles@.to_multiset().len() == 0);
        return Pattern::NoHand;
    }
    let counts = build_count_array(tiles);
    let is_standard = check_standard(&counts);
    if check_thirteen_orphans(&counts) {
        return Pattern::ThirteenOrphans;
    }
    if is_standard && check_chinitsu(tiles) {
        return Pattern::Chinitsu;
    }
    if is_standard && check_honitsu(tiles) {
        return Pattern::Honitsu;
    }
    if check_seven_pairs(&counts) {
        return Pattern::SevenPairs;
    }
    if check_toitoi(&counts) {
        return Pattern::Toitoi;
    }
    if is_standard && check_straight(&counts) {
        return Pattern::Straight;
    }
    if is_standard && check_tanyao(tiles) {
        return Pattern::Tanyao;
    }
    if check_pinfu(&counts) {
        return Pattern::Pinfu;
    }
    if is_standard {
        return Pattern::StandardWin;
    }
    Pattern::NoPattern
}

/// Evaluates a hand: the pattern of highest priority that it satisfies, with
/// base 10 and the pattern's multiplier; for a hand without one, the tile
/// count as base; for an empty hand, base 0.
pub fn evaluate_hand(tiles: &[TileId]) -> (r: HandResult)
    requires
        all_wf(tiles@),
    ensures
        r.pattern_name@ == classify(tiles@.to_multiset()).name_chars(),
        r.base == classify(tiles@.to_multiset()).base_for(tiles@.len()),
        r.multiplier == classify(tiles@.to_multiset()).mult(),
{
    let pattern = classify_hand(tiles);
    let base: u32 = match pattern {
        Pattern::NoHand => 0,
        Pattern::NoPattern => tiles.len() as u32,
        _ => 10,
    };
    HandResult { pattern_name: pattern.name(), base, multiplier: pattern.multiplier() }
}

/// Evaluation sees a hand as a multiset: hands that hold the same tiles in
/// any order report the same pattern, base and multiplier.
pub proof fn lemma_evaluation_order_free(a: Seq<TileId>, b: Seq<TileId>)
    requires
        a.to_multiset() == b.to_multiset(),
    ensures
        classify(a.to_multiset()) == classify(b.to_multiset()),
        classify(a.to_multiset()).base_for(a.len()) == classify(b.to_multiset()).base_for(b.len()),
        classify(a.to_multiset()).mult() == classify(b.to_multiset()).mult(),
        classify(a.to_multiset()).name_chars() == classify(b.to_multiset()).name_chars(),
{
    assert(a.len() == a.to_multiset().len());
    assert(b.len() == b.to_multiset().len());
}

/// Thirteen orphans outranks every other pattern, and a standard hand of one
/// numbered suit reports that pattern, never a plain standard win.
pub proof fn lemma_pattern_priority(m: Multiset<TileId>)
    ensures
        is_thirteen_orphans(hand_counts(m)) ==> classify(m) == Pattern::ThirteenOrphans
            && classify(m).mult() == 13,
        is_standard(hand_counts(m)) && is_chinitsu(m) ==> classify(m) == Pattern::Chinitsu
            && classify(m) != Pattern::StandardWin,
{
    let c = hand_counts(m);
    if is_thirteen_orphans(c) {
        assert(orphan(0));
        assert(c[0] >= 1);
        assert(m.count(tile_at(0)) <= m.len());
    }
    if is_standard(c) && is_chinitsu(m) && is_thirteen_orphans(c) {
        let s = choose|s: TileSuit| numbered(s) && forall|t: TileId| m.count(t) > 0 ==> t.suit == s;
        assert(orphan(27));
        assert(c[27] >= 1);
        assert(m.count(tile_at(27)) > 0);
        assert(tile_at(27).suit == s);
    }
}

} // verus!
