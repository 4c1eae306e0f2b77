use vstd::prelude::*;

verus! {

/// Sum of the first `n` entries of a count sequence.
pub open spec fn sum_upto(c: Seq<int>, n: int) -> int
    decreases n,
{
    if n <= 0 {
        0
    } else {
        sum_upto(c, n - 1) + c[n - 1]
    }
}

/// Total number of tiles that a count sequence holds.
pub open spec fn total(c: Seq<int>) -> int {
    sum_upto(c, c.len() as int)
}

/// A count array read as integers.
pub open spec fn as_ints(a: Seq<usize>) -> Seq<int> {
    Seq::new(a.len(), |j: int| a[j] as int)
}

/// A meld: three of one identity, or three consecutive values of one
/// numbered suit, named by its lowest canonical index.
pub enum Meld {
    Triplet(int),
    Run(int),
}

/// A run may start at values 1 to 7 of a numbered suit.
pub open spec fn run_start(i: int) -> bool {
    (0 <= i <= 6) || (9 <= i <= 15) || (18 <= i <= 24)
}

pub open spec fn meld_valid(m: Meld) -> bool {
    match m {
        Meld::Triplet(i) => 0 <= i < 34,
        Meld::Run(i) => run_start(i),
    }
}

/// How many tiles of canonical index `j` a meld holds.
pub open spec fn meld_count(m: Meld, j: int) -> int {
    match m {
        Meld::Triplet(i) => if j == i {
            3
        } else {
            0
        },
        Meld::Run(i) => if i <= j <= i + 2 {
            1
        } else {
            0
        },
    }
}

/// How many tiles of canonical index `j` a sequence of melds holds.
pub open spec fn melds_count(ms: Seq<Meld>, j: int) -> int
    decreases ms.len(),
{
    if ms.len() == 0 {
        0
    } else {
        melds_count(ms.drop_last(), j) + meld_count(ms.last(), j)
    }
}

/// `ms` is a sequence of melds that together hold exactly the counts `c`.
pub open spec fn is_meld_decomposition(c: Seq<int>, ms: Seq<Meld>) -> bool {
    &&& c.len() == 34
    &&& forall|k: int| 0 <= k < ms.len() ==> meld_valid(#[trigger] ms[k])
    &&& forall|j: int| 0 <= j < 34 ==> c[j] == #[trigger] melds_count(ms, j)
}

/// The counts split into melds with nothing left over.
pub open spec fn all_melds(c: Seq<int>) -> bool {
    exists|ms: Seq<Meld>| is_meld_decomposition(c, ms)
}

/// The counts with one meld taken out.
pub open spec fn take_meld(c: Seq<int>, m: Meld) -> Seq<int> {
    Seq::new(c.len(), |j: int| c[j] - meld_count(m, j))
}

/// The counts with a pair of index `p` taken out.
pub open spec fn take_pair(c: Seq<int>, p: int) -> Seq<int> {
    c.update(p, c[p] - 2)
}

/// A standard hand: one pair plus melds, with nothing left over.
pub open spec fn is_standard(c: Seq<int>) -> bool {
    exists|p: int| 0 <= p < 34 && c[p] >= 2 && all_melds(#[trigger] take_pair(c, p))
}

/// A prefix of nonnegative counts sums to no more than a longer prefix.
pub proof fn lemma_sum_prefix_le(c: Seq<int>, n: int, k: int)
    requires
        0 <= n <= k <= c.len(),
        forall|j: int| 0 <= j < c.len() ==> c[j] >= 0,
    ensures
        sum_upto(c, n) <= sum_upto(c, k),
    decreases k - n,
{
    if n < k {
        lemma_sum_prefix_le(c, n, k - 1);
    }
}

/// Changing one count changes every prefix sum that covers it by as much.
pub proof fn lemma_sum_update(c: Seq<int>, i: int, v: int, n: int)
    requires
        0 <= i < c.len(),
        0 <= n <= c.len(),
    ensures
        sum_upto(c.update(i, v), n) == sum_upto(c, n) + if i < n {
            v - c[i]
        } else {
            0
        },
    decreases n,
{
    if n > 0 {
        lemma_sum_update(c, i, v, n - 1);
    }
}

pub proof fn lemma_sum_nonneg(c: Seq<int>, n: int)
    requires
        0 <= n <= c.len(),
        forall|j: int| 0 <= j < c.len() ==> c[j] >= 0,
    ensures
        sum_upto(c, n) >= 0,
        forall|j: int| 0 <= j < n ==> c[j] <= sum_upto(c, n),
    decreases n,
{
    if n > 0 {
        lemma_sum_nonneg(c, n - 1);
    }
}

/// The counts of a single meld.
pub open spec fn meld_counts(m: Meld) -> Seq<int> {
    Seq::new(34, |j: int| meld_count(m, j))
}

proof fn lemma_sum_take_meld(c: Seq<int>, m: Meld, n: int)
    requires
        c.len() == 34,
        0 <= n <= 34,
    ensures
        sum_upto(take_meld(c, m), n) == sum_upto(c, n) - sum_upto(meld_counts(m), n),
    decreases n,
{
    if n > 0 {
        lemma_sum_take_meld(c, m, n - 1);
    }
}

proof fn lemma_meld_prefix(m: Meld, n: int)
    requires
        meld_valid(m),
        0 <= n <= 34,
    ensures
        sum_upto(meld_counts(m), n) == (match m {
            Meld::Triplet(i) => if i < n {
                3int
            } else {
                0int
            },
            Meld::Run(i) => if n <= i {
                0int
            } else if n >= i + 3 {
                3int
            } else {
                n - i
            },
        }),
    decreases n,
{
    if n > 0 {
        lemma_meld_prefix(m, n - 1);
    }
}

/// Taking a meld out lowers the total by three.
proof fn lemma_total_take_meld(c: Seq<int>, m: Meld)
    requires
        c.len() == 34,
        meld_valid(m),
    ensures
        total(take_meld(c, m)) == total(c) - 3,
{
    lemma_sum_take_meld(c, m, 34);
    lemma_meld_prefix(m, 34);
}

/// A meld lies in the counts of every sequence of melds that holds it.
proof fn lemma_melds_count_ge(ms: Seq<Meld>, k: int, j: int)
    requires
        0 <= k < ms.len(),
    ensures
        melds_count(ms, j) >= meld_count(ms[k], j),
    decreases ms.len(),
{
    lemma_melds_count_nonneg(ms.drop_last(), j);
    if k < ms.len() - 1 {
        lemma_melds_count_ge(ms.drop_last(), k, j);
    }
}

proof fn lemma_melds_count_nonneg(ms: Seq<Meld>, j: int)
    ensures
        melds_count(ms, j) >= 0,
    decreases ms.len(),
{
    if ms.len() > 0 {
        lemma_melds_count_nonneg(ms.drop_last(), j);
    }
}

/// Removing one meld from the sequence removes its tiles from the counts.
proof fn lemma_melds_count_remove(ms: Seq<Meld>, k: int, j: int)
    requires
        0 <= k < ms.len(),
    ensures
        melds_count(ms.remove(k), j) == melds_count(ms, j) - meld_count(ms[k], j),
    decreases ms.len(),
{
    if k == ms.len() - 1 {
        assert(ms.remove(k) =~= ms.drop_last());
    } else {
        assert(ms.remove(k).drop_last() =~= ms.drop_last().remove(k));
        assert(ms.remove(k).last() == ms.last());
        lemma_melds_count_remove(ms.drop_last(), k, j);
    }
}

/// Some meld of the sequence holds a tile of index `j` when the counts do.
proof fn lemma_melds_count_pos(ms: Seq<Meld>, j: int) -> (k: int)
    requires
        melds_count(ms, j) > 0,
    ensures
        0 <= k < ms.len(),
        meld_count(ms[k], j) > 0,
    decreases ms.len(),
{
    if meld_count(ms.last(), j) > 0 {
        (ms.len() - 1) as int
    } else {
        lemma_melds_count_pos(ms.drop_last(), j)
    }
}

/// Adding a meld to a decomposition of the rest decomposes the whole.
proof fn lemma_add_meld(c: Seq<int>, m: Meld)
    requires
        c.len() == 34,
        meld_valid(m),
        all_melds(take_meld(c, m)),
    ensures
        all_melds(c),
{
    let ms = choose|ms: Seq<Meld>| is_meld_decomposition(take_meld(c, m), ms);
    let ms2 = ms.push(m);
    assert(ms2.drop_last() =~= ms);
    assert forall|k: int| 0 <= k < ms2.len() implies meld_valid(#[trigger] ms2[k]) by {
        if k < ms.len() {
            assert(ms2[k] == ms[k]);
        }
    }
    assert forall|j: int| 0 <= j < 34 implies c[j] == #[trigger] melds_count(ms2, j) by {
        assert(take_meld(c, m)[j] == melds_count(ms, j));
    }
    assert(is_meld_decomposition(c, ms2));
}

/// The lowest nonzero index of counts that split into melds starts a triplet
/// or a run that can be taken out, leaving counts that split into melds.
proof fn lemma_first_meld(c: Seq<int>, f: int)
    requires
        all_melds(c),
        0 <= f < 34,
        c[f] > 0,
        forall|j: int| 0 <= j < f ==> c[j] == 0,
    ensures
        (c[f] >= 3 && all_melds(take_meld(c, Meld::Triplet(f)))) || (run_start(f) && c[f + 1] >= 1
            && c[f + 2] >= 1 && all_melds(take_meld(c, Meld::Run(f)))),
{
    let ms = choose|ms: Seq<Meld>| is_meld_decomposition(c, ms);
    assert(c[f] == melds_count(ms, f));
    let k = lemma_melds_count_pos(ms, f);
    let m = ms[k];
    assert(meld_valid(m));
    let rest = ms.remove(k);
    match m {
        Meld::Run(i) => {
            if i < f {
                lemma_melds_count_ge(ms, k, i);
                assert(c[i] == melds_count(ms, i));
                assert(false);
            }
        },
        Meld::Triplet(i) => {},
    }
    assert forall|j: int| 0 <= j < 34 implies c[j] >= #[trigger] meld_count(m, j) by {
        lemma_melds_count_ge(ms, k, j);
        assert(c[j] == melds_count(ms, j));
    }
    assert forall|q: int| 0 <= q < rest.len() implies meld_valid(#[trigger] rest[q]) by {
        if q < k {
            assert(rest[q] == ms[q]);
        } else {
            assert(rest[q] == ms[q + 1]);
        }
    }
    assert forall|j: int| 0 <= j < 34 implies take_meld(c, m)[j] == #[trigger] melds_count(
        rest,
        j,
    ) by {
        lemma_melds_count_remove(ms, k, j);
        assert(c[j] == melds_count(ms, j));
    }
    assert(is_meld_decomposition(take_meld(c, m), rest));
    assert(all_melds(take_meld(c, m)));
    match m {
        Meld::Run(i) => {
            assert(i == f);
            assert(meld_count(m, f + 1) == 1);
            assert(meld_count(m, f + 2) == 1);
        },
        Meld::Triplet(i) => {
            assert(i == f);
            assert(meld_count(m, f) == 3);
        },
    }
}

/// Takes melds out of the counts, lowest index first, trying a triplet and
/// then a run, and backtracking; true when nothing is left over.
fn remove_melds(counts: &[usize; 34]) -> (r: bool)
    ensures
        r == all_melds(as_ints(counts@)),
    decreases total(as_ints(counts@)),
{
    let ghost c = as_ints(counts@);
    assert forall|j: int| 0 <= j < 34 implies c[j] >= 0 by {}
    let mut first: usize = 0;
    while first < 34 && counts[first] == 0
        invariant
            first <= 34,
            forall|j: int| 0 <= j < first ==> counts@[j] == 0,
        decreases 34 - first,
    {
        first = first + 1;
    }
    if first == 34 {
        proof {
            let ms = Seq::<Meld>::empty();
            assert(is_meld_decomposition(c, ms));
        }
        return true;
    }
    proof {
        lemma_sum_nonneg(c, 34);
    }
    if counts[first] >= 3 {
        let mut next = *counts;
        next[first] = counts[first] - 3;
        proof {
            let m = Meld::Triplet(first as int);
            assert(as_ints(next@) =~= take_meld(c, m));
            lemma_total_take_meld(c, m);
            lemma_sum_nonneg(as_ints(next@), 34);
        }
        if remove_melds(&next) {
            proof {
                lemma_add_meld(c, Meld::Triplet(first as int));
            }
            return true;
        }
    }
    let suit_start: Option<usize> = if first < 9 {
        Some(0)
    } else if first < 18 {
        Some(9)
    } else if first < 27 {
        Some(18)
    } else {
        None
    };
    if let Some(start) = suit_start {
        let pos_in_suit = first - start;
        if pos_in_suit <= 6 {
            let i1 = first;
            let i2 = first + 1;
            let i3 = first + 2;
            if counts[i1] >= 1 && counts[i2] >= 1 && counts[i3] >= 1 {
                let mut next = *counts;
                next[i1] = counts[i1] - 1;
                next[i2] = counts[i2] - 1;
                next[i3] = counts[i3] - 1;
                proof {
                    let m = Meld::Run(first as int);
                    assert(as_ints(next@) =~= take_meld(c, m));
                    lemma_total_take_meld(c, m);
                    lemma_sum_nonneg(as_ints(next@), 34);
                }
                if remove_melds(&next) {
                    proof {
                        lemma_add_meld(c, Meld::Run(first as int));
                    }
                    return true;
                }
            }
        }
    }
    proof {
        if all_melds(c) {
            lemma_first_meld(c, first as int);
        }
    }
    false
}

/// Whether the counts form a standard hand: some pair, and melds for the rest.
pub fn check_standard(counts: &[usize; 34]) -> (r: bool)
    ensures
        r == is_standard(as_ints(counts@)),
{
    let ghost c = as_ints(counts@);
    for pair_idx in 0..34
        invariant
            c == as_ints(counts@),
            forall|p: int| 0 <= p < pair_idx ==> !(c[p] >= 2 && all_melds(#[trigger] take_pair(c, p))),
    {
        if counts[pair_idx] >= 2 {
            let mut remaining = *counts;
            remaining[pair_idx] = counts[pair_idx] - 2;
            assert(as_ints(remaining@) =~= take_pair(c, pair_idx as int));
            if remove_melds(&remaining) {
                return true;
            }
        }
    }
    false
}

} // verus!
