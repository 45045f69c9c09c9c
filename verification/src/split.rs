//! Splitting one transaction among several envelopes: the share of each
//! entry and the sums that fall to each envelope.

use crate::dollar::{
    fits, lemma_product_bound, lemma_round_div_between, lemma_share_between, round_div_wide,
};
use crate::model::{
    lemma_total_bounds, lemma_total_take, share_sum, split_shares, total, weights_of,
    SplitEntries,
};
use vstd::prelude::*;

verus! {

/// The amounts of a list of machine integers.
pub open spec fn ints_of(amounts: Seq<i64>) -> Seq<int> {
    amounts.map_values(|x: i64| x as int)
}

/// A number of amounts of 64 bits that a list can hold adds up to less
/// than 128 bits hold.
pub proof fn lemma_count_bounds(n: int)
    requires
        0 <= n <= usize::MAX,
    ensures
        i128::MIN <= n * i64::MIN + i64::MIN,
        n * i64::MAX + i64::MAX <= i128::MAX,
{
    assert(i128::MIN <= n * i64::MIN + i64::MIN && n * i64::MAX + i64::MAX <= i128::MAX)
        by (nonlinear_arith)
        requires
            0 <= n < 0x1_0000_0000_0000_0000,
            i64::MIN == -0x8000_0000_0000_0000,
            i64::MAX == 0x7fff_ffff_ffff_ffff,
            i128::MIN == -0x8000_0000_0000_0000_0000_0000_0000_0000,
            i128::MAX == 0x7fff_ffff_ffff_ffff_ffff_ffff_ffff_ffff,
    ;
}

/// The names and weights of a split as the contracts see them.
pub open spec fn entries_of(names: Seq<(&str, u32)>) -> SplitEntries {
    Seq::new(names.len(), |k: int| (names[k].0@, names[k].1 as int))
}

/// Where each entry leads, as numbers.
pub open spec fn slot_ints(slots: Seq<usize>) -> Seq<int> {
    slots.map_values(|s: usize| s as int)
}

/// No amount of a list of amounts that are not negative exceeds their
/// total.
pub proof fn lemma_total_covers(amounts: Seq<int>, i: int)
    requires
        forall|k: int| 0 <= k < amounts.len() ==> 0 <= #[trigger] amounts[k],
        0 <= i < amounts.len(),
    ensures
        0 <= amounts[i] <= total(amounts),
        0 <= total(amounts.drop_last()),
    decreases amounts.len(),
{
    let rest = amounts.drop_last();
    assert forall|k: int| 0 <= k < rest.len() implies 0 <= #[trigger] rest[k] by {
        assert(rest[k] == amounts[k]);
    }
    if rest.len() > 0 {
        lemma_total_covers(rest, 0);
        assert(rest.drop_last().len() >= 0);
        if i < rest.len() {
            lemma_total_covers(rest, i);
        }
        assert(0 <= total(rest)) by {
            assert(0 <= rest[0] <= total(rest));
        }
    }
    assert(0 <= amounts[amounts.len() - 1]);
}

/// The weights of a split together.
pub(crate) fn total_weight(names: &[(&str, u32)]) -> (w: u128)
    ensures
        w == total(weights_of(entries_of(names@))),
        w <= names.len() * u32::MAX,
{
    let ghost weights = weights_of(entries_of(names@));
    let mut w: u128 = 0;
    let mut k: usize = 0;
    proof {
        assert(weights.take(0) =~= Seq::<int>::empty());
    }
    while k < names.len()
        invariant
            k <= names.len(),
            weights == weights_of(entries_of(names@)),
            w == total(weights.take(k as int)),
            w <= k * u32::MAX,
        decreases names.len() - k,
    {
        proof {
            lemma_total_take(weights, k as int);
            assert(weights[k as int] == names@[k as int].1);
            assert((k + 1) * u32::MAX == k * u32::MAX + u32::MAX) by (nonlinear_arith);
            assert(k * u32::MAX <= 0xffff_ffff_ffff_ffff * 0xffff_ffff) by (nonlinear_arith)
                requires
                    k <= 0xffff_ffff_ffff_ffff,
                    u32::MAX == 0xffff_ffff,
            ;
        }
        w = w + names[k].1 as u128;
        k += 1;
    }
    proof {
        assert(weights.take(names.len() as int) =~= weights);
    }
    w
}

/// The share of each entry of a split.
pub(crate) fn shares_of(
    names: &[(&str, u32)],
    amount: i64,
    even: bool,
    weight: u128,
) -> (shares: Vec<i64>)
    requires
        weight == total(weights_of(entries_of(names@))),
        even || names.len() == 0 || weight > 0,
        weight <= names.len() * u32::MAX,
    ensures
        ints_of(shares@) == split_shares(entries_of(names@), amount as int, even),
{
    let ghost entries = entries_of(names@);
    let ghost wanted = split_shares(entries, amount as int, even);
    let n: usize = names.len();
    let mut shares: Vec<i64> = Vec::new();
    let mut k: usize = 0;
    while k < n
        invariant
            k <= n,
            n == names.len(),
            entries == entries_of(names@),
            wanted == split_shares(entries, amount as int, even),
            weight == total(weights_of(entries)),
            even || names.len() == 0 || weight > 0,
            weight <= names.len() * u32::MAX,
            shares.len() == k,
            forall|j: int| 0 <= j < k ==> #[trigger] shares@[j] as int == wanted[j],
        decreases n - k,
    {
        let share: i128 = if even {
            proof {
                lemma_round_div_between(amount as int, n as int);
            }
            round_div_wide(amount as i128, n as i128)
        } else {
            let w: u32 = names[k].1;
            proof {
                let weights = weights_of(entries);
                assert forall|j: int| 0 <= j < weights.len() implies 0 <= #[trigger] weights[j] by {
                    assert(weights[j] == names@[j].1);
                }
                lemma_total_covers(weights, k as int);
                assert(weights[k as int] == w);
                lemma_product_bound(amount as int, w as int);
                lemma_share_between(amount as int, w as int, weight as int);
                assert(n * u32::MAX <= 0xffff_ffff_ffff_ffff * 0xffff_ffff) by (nonlinear_arith)
                    requires
                        n <= 0xffff_ffff_ffff_ffff,
                        u32::MAX == 0xffff_ffff,
                ;
            }
            round_div_wide((amount as i128) * (w as i128), weight as i128)
        };
        proof {
            assert(share == wanted[k as int]);
        }
        shares.push(share as i64);
        k += 1;
    }
    proof {
        assert(ints_of(shares@) =~= wanted);
    }
    shares
}

/// The sum of the shares that lead to one place lies within the number of
/// shares times the bounds of 64 bits.
pub proof fn lemma_share_sum_bounds(slots: Seq<int>, shares: Seq<int>, slot: int, k: int)
    requires
        0 <= k <= shares.len(),
        slots.len() == shares.len(),
        forall|j: int| 0 <= j < shares.len() ==> fits(#[trigger] shares[j]),
    ensures
        k * i64::MIN <= share_sum(slots, shares, slot, k) <= k * i64::MAX,
    decreases k,
{
    if k > 0 {
        lemma_share_sum_bounds(slots, shares, slot, k - 1);
        assert(fits(shares[k - 1]));
        assert(k * i64::MIN == (k - 1) * i64::MIN + i64::MIN) by (nonlinear_arith);
        assert(k * i64::MAX == (k - 1) * i64::MAX + i64::MAX) by (nonlinear_arith);
    }
}

/// The sum of the shares that lead to each envelope and, last in the
/// result, of those that lead past the envelopes.
pub(crate) fn credit_sums(slots: &Vec<usize>, shares: &Vec<i64>, count: usize) -> (r: (
    Vec<i128>,
    i128,
))
    requires
        slots.len() == shares.len(),
        forall|k: int| 0 <= k < slots.len() ==> #[trigger] slots@[k] <= count,
    ensures
        r.0.len() == count,
        forall|s: int|
            0 <= s < count ==> #[trigger] r.0@[s] as int == share_sum(
                slot_ints(slots@),
                ints_of(shares@),
                s,
                slots.len() as int,
            ),
        r.1 == share_sum(slot_ints(slots@), ints_of(shares@), count as int, slots.len() as int),
{
    let ghost places = slot_ints(slots@);
    let ghost parts = ints_of(shares@);
    let mut credits: Vec<i128> = Vec::new();
    let mut s: usize = 0;
    while s < count
        invariant
            s <= count,
            credits.len() == s,
            forall|j: int| 0 <= j < s ==> #[trigger] credits@[j] == 0,
        decreases count - s,
    {
        credits.push(0);
        s += 1;
    }
    let mut beyond: i128 = 0;
    let mut k: usize = 0;
    while k < slots.len()
        invariant
            k <= slots.len(),
            slots.len() == shares.len(),
            places == slot_ints(slots@),
            parts == ints_of(shares@),
            forall|j: int| 0 <= j < slots.len() ==> #[trigger] slots@[j] <= count,
            credits.len() == count,
            forall|j: int|
                0 <= j < count ==> #[trigger] credits@[j] as int == share_sum(
                    places,
                    parts,
                    j,
                    k as int,
                ),
            beyond == share_sum(places, parts, count as int, k as int),
        decreases slots.len() - k,
    {
        let slot: usize = slots[k];
        let share: i64 = shares[k];
        proof {
            assert(places[k as int] == slot);
            assert(parts[k as int] == share);
            assert forall|j: int| 0 <= j < parts.len() implies fits(#[trigger] parts[j]) by {}
            lemma_share_sum_bounds(places, parts, slot as int, k as int);
            lemma_count_bounds(k as int);
        }
        if slot < count {
            let ghost prior = credits@;
            credits[slot] = credits[slot] + share as i128;
            proof {
                assert forall|j: int| 0 <= j < count implies #[trigger] credits@[j] as int
                    == share_sum(places, parts, j, k + 1) by {
                    assert(prior[j] as int == share_sum(places, parts, j, k as int));
                }
            }
        } else {
            beyond = beyond + share as i128;
        }
        k += 1;
    }
    (credits, beyond)
}

/// Which envelopes the entries lead to and, last in the result, whether
/// one leads past the envelopes.
pub(crate) fn marks_of(slots: &Vec<usize>, count: usize) -> (r: (Vec<bool>, bool))
    requires
        forall|k: int| 0 <= k < slots.len() ==> #[trigger] slots@[k] <= count,
    ensures
        r.0.len() == count,
        forall|s: int| 0 <= s < count ==> #[trigger] r.0@[s] == slot_ints(slots@).contains(s),
        r.1 == slot_ints(slots@).contains(count as int),
{
    let ghost places = slot_ints(slots@);
    let mut marks: Vec<bool> = Vec::new();
    let mut s: usize = 0;
    while s < count
        invariant
            s <= count,
            marks.len() == s,
            forall|j: int| 0 <= j < s ==> #[trigger] marks@[j] == false,
        decreases count - s,
    {
        marks.push(false);
        s += 1;
    }
    let mut beyond: bool = false;
    let mut k: usize = 0;
    while k < slots.len()
        invariant
            k <= slots.len(),
            places == slot_ints(slots@),
            forall|j: int| 0 <= j < slots.len() ==> #[trigger] slots@[j] <= count,
            marks.len() == count,
            forall|j: int|
                0 <= j < count ==> #[trigger] marks@[j] == places.take(k as int).contains(j),
            beyond == places.take(k as int).contains(count as int),
        decreases slots.len() - k,
    {
        let slot: usize = slots[k];
        let ghost prior = marks@;
        proof {
            assert(places[k as int] == slot);
            assert(places.take(k + 1) =~= places.take(k as int).push(slot as int));
            assert forall|x: int| places.take(k + 1).contains(x) <==> (places.take(
                k as int,
            ).contains(x) || x == slot) by {
                if places.take(k as int).contains(x) {
                    let w = choose|w: int|
                        0 <= w < places.take(k as int).len() && places.take(k as int)[w] == x;
                    assert(places.take(k + 1)[w] == x);
                }
                if x == slot {
                    assert(places.take(k + 1)[k as int] == x);
                }
            }
        }
        if slot < count {
            marks[slot] = true;
        } else {
            beyond = true;
        }
        proof {
            assert forall|j: int| 0 <= j < count implies #[trigger] marks@[j] == places.take(
                k + 1,
            ).contains(j) by {
                assert(prior[j] == places.take(k as int).contains(j));
            }
        }
        k += 1;
    }
    proof {
        assert(places.take(slots.len() as int) =~= places);
    }
    (marks, beyond)
}

/// The sum of a list of amounts.
pub(crate) fn sum_of(amounts: &Vec<i64>) -> (sum: i128)
    ensures
        sum == total(ints_of(amounts@)),
        amounts.len() * i64::MIN <= sum <= amounts.len() * i64::MAX,
{
    let ghost ints = ints_of(amounts@);
    let mut sum: i128 = 0;
    let mut i: usize = 0;
    proof {
        assert(ints.take(0) =~= Seq::<int>::empty());
    }
    while i < amounts.len()
        invariant
            i <= amounts.len(),
            ints == ints_of(amounts@),
            sum == total(ints.take(i as int)),
        decreases amounts.len() - i,
    {
        proof {
            lemma_total_take(ints, i as int);
            let prefix = ints.take(i as int);
            assert forall|k: int| 0 <= k < prefix.len() implies fits(#[trigger] prefix[k]) by {}
            lemma_total_bounds(prefix);
            lemma_count_bounds(i as int);
        }
        sum = sum + amounts[i] as i128;
        i += 1;
    }
    proof {
        assert(ints.take(amounts.len() as int) =~= ints);
        assert forall|k: int| 0 <= k < ints.len() implies fits(#[trigger] ints[k]) by {}
        lemma_total_bounds(ints);
    }
    sum
}

} // verus!
