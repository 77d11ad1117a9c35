use vstd::arithmetic::div_mod::{
    lemma_div_is_ordered, lemma_div_multiples_vanish, lemma_fundamental_div_mod,
    lemma_hoist_over_denominator, lemma_mod_bound,
};
use vstd::arithmetic::mul::lemma_mul_inequality;
use vstd::prelude::*;

use crate::pool::AccountId;
use crate::types::UserKey;

verus! {

/// Total stake over a stake-index snapshot.
pub open spec fn total_stake(balances: Seq<(UserKey, u64)>) -> int
    decreases balances.len(),
{
    if balances.len() == 0 {
        0
    } else {
        total_stake(balances.drop_last()) + balances.last().1
    }
}

/// The floor share of `amount` owed to a stake of `stake` out of `total`.
pub open spec fn spec_reward(stake: u64, amount: u64, total: int) -> int {
    (stake * amount) / total
}

/// The payouts of one distribution: one entry per staker whose floor share is
/// nonzero, in snapshot order.
pub open spec fn reward_plan(balances: Seq<(UserKey, u64)>, amount: u64, total: int) -> Seq<
    (AccountId, u64),
>
    decreases balances.len(),
{
    if balances.len() == 0 {
        Seq::empty()
    } else {
        reward_plan(balances.drop_last(), amount, total) + if spec_reward(
            balances.last().1,
            amount,
            total,
        ) == 0 {
            Seq::empty()
        } else {
            seq![(balances.last().0@, spec_reward(balances.last().1, amount, total) as u64)]
        }
    }
}

/// The views of a payout vector.
pub open spec fn abs_plan(s: Seq<(UserKey, u64)>) -> Seq<(AccountId, u64)> {
    s.map_values(|p: (UserKey, u64)| (p.0@, p.1))
}

/// Sum of the payouts of a plan.
pub open spec fn plan_total(plan: Seq<(AccountId, u64)>) -> int
    decreases plan.len(),
{
    if plan.len() == 0 {
        0
    } else {
        plan_total(plan.drop_last()) + plan.last().1
    }
}

/// Floor division of a sum loses no less than floor division of its parts:
/// `a/t + b/t <= (a+b)/t` for nonnegative `a` and `b`.
proof fn lemma_div_sum_le(a: int, b: int, t: int)
    requires
        a >= 0,
        b >= 0,
        t > 0,
    ensures
        a / t + b / t <= (a + b) / t,
{
    lemma_hoist_over_denominator(a, b / t, t as nat);
    lemma_fundamental_div_mod(b, t);
    lemma_mod_bound(b, t);
    assert(t * (b / t) == (b / t) * t) by (nonlinear_arith);
    assert((b / t) * t <= b);
    lemma_div_is_ordered(a + (b / t) * t, a + b, t);
}

/// The payouts of a plan sum to at most the exact (unfloored) share of the
/// stake the snapshot covers.
proof fn lemma_plan_total_le(s: Seq<(UserKey, u64)>, amount: u64, total: int)
    requires
        total > 0,
        forall|i: int| 0 <= i < s.len() ==> (#[trigger] s[i]).1 <= total,
    ensures
        0 <= plan_total(reward_plan(s, amount, total)),
        plan_total(reward_plan(s, amount, total)) <= (total_stake(s) * amount) / total,
    decreases s.len(),
{
    if s.len() == 0 {
        assert(reward_plan(s, amount, total) == Seq::<(AccountId, u64)>::empty());
    } else {
        let d = s.drop_last();
        assert forall|i: int| 0 <= i < d.len() implies (#[trigger] d[i]).1 <= total by {
            assert(d[i] == s[i]);
        }
        lemma_plan_total_le(d, amount, total);
        lemma_total_stake_nonneg(d);
        let x = total_stake(d);
        let y = s.last().1;
        let r = spec_reward(y, amount, total);
        assert(s.last() == s[s.len() - 1]);
        lemma_reward_le_amount(y, amount, total);
        let prefix = reward_plan(d, amount, total);
        let whole = reward_plan(s, amount, total);
        if r == 0 {
            assert(whole =~= prefix);
            assert(plan_total(whole) == plan_total(prefix));
        } else {
            assert(whole =~= prefix.push((s.last().0@, r as u64)));
            assert(whole.drop_last() =~= prefix);
            assert(r as u64 == r);
            assert(plan_total(whole) == plan_total(prefix) + r);
        }
        assert(x * amount >= 0) by (nonlinear_arith)
            requires
                x >= 0 && amount >= 0,
        ;
        assert((x + y) * amount == x * amount + y * amount) by (nonlinear_arith);
        lemma_div_sum_le(x * amount, y * amount, total);
        assert(total_stake(s) == x + y);
    }
}

/// Law: a distribution never pays out more than the amount supplied — the
/// floor shares of all stakers sum to at most the reward pool, the difference
/// being the dust that floor division leaves undistributed.
pub proof fn lemma_payouts_within_amount(s: Seq<(UserKey, u64)>, amount: u64)
    requires
        total_stake(s) > 0,
    ensures
        0 <= plan_total(reward_plan(s, amount, total_stake(s))),
        plan_total(reward_plan(s, amount, total_stake(s))) <= amount,
{
    let t = total_stake(s);
    assert forall|i: int| 0 <= i < s.len() implies (#[trigger] s[i]).1 <= t by {
        lemma_stake_le_total(s, i);
    }
    lemma_plan_total_le(s, amount, t);
    lemma_div_multiples_vanish(amount as int, t);
    assert(t * amount == total_stake(s) * amount);
}

/// The total stake is never negative.
pub proof fn lemma_total_stake_nonneg(s: Seq<(UserKey, u64)>)
    ensures
        total_stake(s) >= 0,
    decreases s.len(),
{
    if s.len() > 0 {
        lemma_total_stake_nonneg(s.drop_last());
    }
}

/// Each staker's stake is at most the total.
pub proof fn lemma_stake_le_total(s: Seq<(UserKey, u64)>, i: int)
    requires
        0 <= i < s.len(),
    ensures
        s[i].1 <= total_stake(s),
    decreases s.len(),
{
    if i == s.len() - 1 {
        lemma_total_stake_nonneg(s.drop_last());
    } else {
        lemma_stake_le_total(s.drop_last(), i);
        assert(s.drop_last()[i] == s[i]);
    }
}

/// One more snapshot entry adds its stake to the total.
pub proof fn lemma_total_take_step(s: Seq<(UserKey, u64)>, i: int)
    requires
        0 <= i < s.len(),
    ensures
        total_stake(s.take(i + 1)) == total_stake(s.take(i)) + s[i].1,
{
    assert(s.take(i + 1).drop_last() =~= s.take(i));
    assert(s.take(i + 1).last() == s[i]);
}

/// One more snapshot entry contributes its payout when its floor share is
/// nonzero, and nothing otherwise.
pub proof fn lemma_plan_take_step(s: Seq<(UserKey, u64)>, amount: u64, total: int, i: int)
    requires
        0 <= i < s.len(),
    ensures
        reward_plan(s.take(i + 1), amount, total) == reward_plan(s.take(i), amount, total)
            + if spec_reward(s[i].1, amount, total) == 0 {
            Seq::<(AccountId, u64)>::empty()
        } else {
            seq![(s[i].0@, spec_reward(s[i].1, amount, total) as u64)]
        },
{
    assert(s.take(i + 1).drop_last() =~= s.take(i));
    assert(s.take(i + 1).last() == s[i]);
}

/// Appending to a payout vector appends the pair of views.
pub proof fn lemma_abs_plan_push(s: Seq<(UserKey, u64)>, p: (UserKey, u64))
    ensures
        abs_plan(s.push(p)) == abs_plan(s).push((p.0@, p.1)),
{
    assert(abs_plan(s.push(p)) =~= abs_plan(s).push((p.0@, p.1)));
}

/// A staker's floor share never exceeds the amount being distributed.
pub proof fn lemma_reward_le_amount(stake: u64, amount: u64, total: int)
    requires
        0 < total,
        stake <= total,
    ensures
        0 <= spec_reward(stake, amount, total) <= amount,
{
    lemma_mul_inequality(stake as int, total, amount as int);
    lemma_div_is_ordered(stake * amount, total * amount, total);
    lemma_div_multiples_vanish(amount as int, total);
    assert(total * amount == amount * total) by (nonlinear_arith);
    assert((stake * amount) / total >= 0) by {
        assert(stake * amount >= 0) by (nonlinear_arith)
            requires
                stake >= 0 && amount >= 0,
        ;
        lemma_div_is_ordered(0, stake * amount, total);
    }
}

} // verus!
