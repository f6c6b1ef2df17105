//! Pure validators and arithmetic of the ledger core: character-length
//! bounds, the endorsement weight tiers, and the percentage arithmetic of
//! prize distribution.

use vstd::prelude::*;
use vstd::std_specs::iter::IteratorSpec;
use crate::state::PrizeSplit;

verus! {

broadcast use vstd::string::next_postcondition, vstd::string::axiom_spec_iter;

/// Decides whether `s` holds at most `max` characters.
pub fn char_len_at_most(s: &String, max: usize) -> (r: bool)
    requires
        max < usize::MAX,
    ensures
        r == (s@.len() <= max),
{
    let mut it = s.as_str().chars();
    let mut n: usize = 0;
    loop
        invariant
            max < usize::MAX,
            n <= s@.len(),
            n <= max + 1,
            it.obeys_prophetic_iter_laws(),
            it.remaining() =~= s@.skip(n as int),
            n > max ==> s@.len() > max,
        decreases s@.len() - n,
    {
        if n > max {
            return false;
        }
        match it.next() {
            Some(_) => {
                proof {
                    assert(s@.skip(n as int).drop_first() =~= s@.skip(n as int + 1));
                    assert(n <= max);
                }
                n = n + 1;
            }
            None => {
                proof {
                    assert(s@.skip(n as int).len() == 0);
                }
                return n <= max;
            }
        }
    }
}

/// The weight an endorsement carries, as a function of the endorser's
/// current reputation score: 1 below 100, 3 from 100, 5 from 500, and 10
/// from 1000 upward.
pub open spec fn weight_of(reputation: u64) -> u64 {
    if reputation < 100 {
        1
    } else if reputation < 500 {
        3
    } else if reputation < 1000 {
        5
    } else {
        10
    }
}

/// The weight that an endorsement carries, derived from the endorser's
/// current reputation score by fixed tiers.
pub fn endorsement_weight(reputation: u64) -> (w: u64)
    ensures
        w == weight_of(reputation),
        1 <= w <= 10,
{
    if reputation < 100 {
        1
    } else if reputation < 500 {
        3
    } else if reputation < 1000 {
        5
    } else {
        10
    }
}

/// The total of the percentages of a split list.
pub open spec fn splits_total(s: Seq<PrizeSplit>) -> int
    decreases s.len(),
{
    if s.len() == 0 {
        0
    } else {
        splits_total(s.drop_last()) + s.last().percentage
    }
}

/// A prefix of a split list never totals more than the whole list.
pub proof fn lemma_splits_total_prefix(s: Seq<PrizeSplit>, i: int)
    requires
        0 <= i <= s.len(),
    ensures
        splits_total(s.subrange(0, i)) <= splits_total(s),
    decreases s.len() - i,
{
    if i < s.len() {
        assert(s.subrange(0, i + 1).drop_last() =~= s.subrange(0, i));
        assert(s.subrange(0, i + 1).last() == s[i]);
        lemma_splits_total_prefix(s, i + 1);
        if i + 1 == s.len() {
            assert(s.subrange(0, s.len() as int) =~= s);
        }
    } else {
        assert(s.subrange(0, i) =~= s);
    }
}

/// No percentage in a split list exceeds the list's total.
pub proof fn lemma_split_le_total(s: Seq<PrizeSplit>, i: int)
    requires
        0 <= i < s.len(),
    ensures
        s[i].percentage <= splits_total(s),
    decreases s.len(),
{
    if i == s.len() - 1 {
        lemma_splits_total_nonneg(s.drop_last());
    } else {
        lemma_split_le_total(s.drop_last(), i);
        assert(s.drop_last()[i] == s[i]);
    }
}

/// Computes the total of the percentages of a split list.
pub fn total_percentage(splits: &Vec<PrizeSplit>) -> (t: Option<u16>)
    ensures
        match t {
            Some(v) => v == splits_total(splits@) && splits_total(splits@) <= u16::MAX,
            None => splits_total(splits@) > u16::MAX,
        },
{
    let mut t: u16 = 0;
    let mut i: usize = 0;
    while i < splits.len()
        invariant
            0 <= i <= splits@.len(),
            t == splits_total(splits@.subrange(0, i as int)),
        decreases splits@.len() - i,
    {
        proof {
            assert(splits@.subrange(0, i as int + 1).drop_last() =~= splits@.subrange(
                0,
                i as int,
            ));
            assert(splits@.subrange(0, i as int + 1).last() == splits@[i as int]);
        }
        let p: u16 = splits[i].percentage as u16;
        if t > u16::MAX - p {
            proof {
                lemma_splits_total_prefix(splits@, i as int + 1);
            }
            return None;
        }
        t = t + p;
        i = i + 1;
    }
    proof {
        assert(splits@.subrange(0, splits@.len() as int) =~= splits@);
    }
    Some(t)
}

/// The share a recipient is owed: the floor of `balance * percentage / 100`,
/// taken with double-width intermediate arithmetic.
pub open spec fn share_of(balance: u64, percentage: u8) -> int {
    (balance * percentage) / 100
}

/// Computes one recipient's share of a balance.
pub fn prize_share(balance: u64, percentage: u8) -> (r: u64)
    requires
        percentage <= 100,
    ensures
        r == share_of(balance, percentage),
        r <= balance,
{
    proof {
        lemma_share_le_balance(balance, percentage);
    }
    let wide: u128 = (balance as u128) * (percentage as u128) / 100;
    wide as u64
}

/// A share never exceeds the balance it is carved from.
pub proof fn lemma_share_le_balance(balance: u64, percentage: u8)
    requires
        percentage <= 100,
    ensures
        0 <= share_of(balance, percentage) <= balance,
{
    assert(0 <= (balance * percentage) / 100 <= balance) by (nonlinear_arith)
        requires
            percentage <= 100,
            balance >= 0,
    ;
}

/// The total of the shares owed over a split list.
pub open spec fn shares_total(s: Seq<PrizeSplit>, balance: u64) -> int
    decreases s.len(),
{
    if s.len() == 0 {
        0
    } else {
        shares_total(s.drop_last(), balance) + share_of(balance, s.last().percentage)
    }
}

/// A sum of floored shares never exceeds the floor taken over the summed
/// percentages: the shares pay out at most `balance * total / 100`.
pub proof fn lemma_shares_total_le(s: Seq<PrizeSplit>, balance: u64)
    ensures
        0 <= shares_total(s, balance) <= (balance * splits_total(s)) / 100,
    decreases s.len(),
{
    if s.len() == 0 {
    } else {
        let t = s.drop_last();
        let p = s.last().percentage;
        lemma_shares_total_le(t, balance);
        lemma_splits_total_nonneg(t);
        assert(share_of(balance, p) >= 0) by (nonlinear_arith);
        assert((balance * splits_total(t)) / 100 + (balance * p) / 100 <= (balance
            * splits_total(s)) / 100) by (nonlinear_arith)
            requires
                splits_total(s) == splits_total(t) + p,
                balance >= 0,
                p >= 0,
                splits_total(t) >= 0,
        ;
    }
}

/// A split total is never negative.
pub proof fn lemma_splits_total_nonneg(s: Seq<PrizeSplit>)
    ensures
        splits_total(s) >= 0,
    decreases s.len(),
{
    if s.len() > 0 {
        lemma_splits_total_nonneg(s.drop_last());
    }
}

/// A prefix of a split list never owes more in shares than the whole
/// list.
pub proof fn lemma_shares_total_prefix(s: Seq<PrizeSplit>, i: int, balance: u64)
    requires
        0 <= i <= s.len(),
    ensures
        shares_total(s.subrange(0, i), balance) <= shares_total(s, balance),
    decreases s.len() - i,
{
    if i < s.len() {
        assert(s.subrange(0, i + 1).drop_last() =~= s.subrange(0, i));
        assert(s.subrange(0, i + 1).last() == s[i]);
        assert(share_of(balance, s[i].percentage) >= 0) by (nonlinear_arith);
        lemma_shares_total_prefix(s, i + 1, balance);
        if i + 1 == s.len() {
            assert(s.subrange(0, s.len() as int) =~= s);
        }
    } else {
        assert(s.subrange(0, i) =~= s);
    }
}

/// The share total owed to one recipient over a split list: the shares of
/// every split naming that recipient, summed.
pub open spec fn owed_to(s: Seq<PrizeSplit>, balance: u64, owner: u64) -> int
    decreases s.len(),
{
    if s.len() == 0 {
        0
    } else {
        owed_to(s.drop_last(), balance, owner) + if s.last().agent == owner {
            share_of(balance, s.last().percentage)
        } else {
            0
        }
    }
}

/// What a recipient is owed never shrinks as the split list grows.
pub proof fn lemma_owed_to_prefix(s: Seq<PrizeSplit>, i: int, balance: u64, owner: u64)
    requires
        0 <= i <= s.len(),
    ensures
        owed_to(s.subrange(0, i), balance, owner) <= owed_to(s, balance, owner),
        owed_to(s.subrange(0, i), balance, owner) >= 0,
    decreases s.len() - i,
{
    lemma_owed_to_nonneg(s.subrange(0, i), balance, owner);
    if i < s.len() {
        assert(s.subrange(0, i + 1).drop_last() =~= s.subrange(0, i));
        assert(s.subrange(0, i + 1).last() == s[i]);
        assert(share_of(balance, s[i].percentage) >= 0) by (nonlinear_arith);
        lemma_owed_to_prefix(s, i + 1, balance, owner);
        if i + 1 == s.len() {
            assert(s.subrange(0, s.len() as int) =~= s);
        }
    } else {
        assert(s.subrange(0, i) =~= s);
    }
}

/// What a recipient is owed is never negative.
pub proof fn lemma_owed_to_nonneg(s: Seq<PrizeSplit>, balance: u64, owner: u64)
    ensures
        owed_to(s, balance, owner) >= 0,
    decreases s.len(),
{
    if s.len() > 0 {
        lemma_owed_to_nonneg(s.drop_last(), balance, owner);
        assert(share_of(balance, s.last().percentage) >= 0) by (nonlinear_arith);
    }
}

/// When the percentages total exactly 100, the shares total at most the
/// balance: distribution can never overdraw the treasury.
pub proof fn lemma_shares_within_balance(s: Seq<PrizeSplit>, balance: u64)
    requires
        splits_total(s) == 100,
    ensures
        0 <= shares_total(s, balance) <= balance,
{
    lemma_shares_total_le(s, balance);
    assert((balance * 100) / 100 == balance) by (nonlinear_arith);
}

} // verus!
