use stake_pool_backend::error::DepositError;
use stake_pool_backend::pool::StakePool;
use stake_pool_backend::types::Deposit;

/// The byte form of the anonymous principal used as the owner in the tests.
fn anon() -> Vec<u8> {
    vec![4u8]
}

#[test]
fn test_deposit_validation() {
    let mut pool = StakePool::new();
    let caller = anon();
    let current_time: u64 = 1_000_000_000;
    let timestamp = current_time - (100 * 86400); // 100 days ago
    let subaccount = vec![1u8; 32];
    assert_eq!(
        pool.deposit_internal(caller.clone(), subaccount.clone(), 91, 1_000_000_000, timestamp),
        Err(DepositError::InvalidLockPeriod)
    );

    let deposit1 = pool
        .deposit_internal(caller.clone(), subaccount.clone(), 90, 1_000_000_000, timestamp)
        .unwrap();
    assert_eq!(deposit1.id, 1);

    // double deposit with different lock period
    let deposit2 = pool
        .deposit_internal(caller, subaccount, 180, 1_000_000_000, timestamp)
        .unwrap();

    assert_eq!(deposit2.id, 2);
}

#[test]
fn test_withdraw_funds_success() {
    let mut pool = StakePool::new();
    let principal = anon();
    let sub = vec![2u8; 32];

    let current_time: u64 = 1_000_000_000;
    let timestamp = current_time - (100 * 86400); // 100 days ago

    let deposit = pool
        .deposit_internal(principal.clone(), sub.clone(), 90, 1_000_000, timestamp)
        .unwrap();
    assert_eq!(deposit.id, 1);

    let result = pool.withdraw_internal(&principal, &sub, deposit.id, current_time);

    assert_eq!(result, Ok(1_000_000));
}

#[test]
fn test_withdraw_funds_lock_not_expired() {
    let mut pool = StakePool::new();
    let principal = anon();
    let sub = vec![3u8; 32];

    let current_time: u64 = 1_000_000_000;

    // Deposit just now, lock not expired
    let deposit = pool
        .deposit_internal(principal.clone(), sub.clone(), 90, 2_000_000, current_time)
        .unwrap();

    assert_eq!(deposit.id, 1);

    let result = pool.withdraw_internal(&principal, &sub, deposit.id, current_time);

    assert_eq!(result, Err(DepositError::LockPeriodNotExpired));
}

#[test]
fn test_withdraw_funds_invalid_deposit_id() {
    let mut pool = StakePool::new();
    let principal = anon();
    let sub = vec![4u8; 32];

    let current_time: u64 = 1_000_000_000;
    let timestamp = current_time - (100 * 86400); // 100 days ago
    let invalid_id = 999;

    let deposit = pool
        .deposit_internal(principal.clone(), sub.clone(), 90, 3_000_000, timestamp)
        .unwrap();

    assert_eq!(deposit.id, 1);

    let result = pool.withdraw_internal(&principal, &sub, invalid_id, timestamp);

    assert_eq!(result, Err(DepositError::NoDepositFound));
}

#[test]
fn test_reward_pool_distributes_proportionally() {
    // Setup: 2 stakers with 100 and 300 stake
    let mut pool = StakePool::new();

    let p1 = anon();
    let sub1 = vec![4u8; 32];

    let p2 = anon();
    let sub2 = vec![8u8; 32];

    let current_time: u64 = 1_000_000_000;
    let timestamp = current_time - (100 * 86400); // 100 days ago
    let d1 = pool.deposit_internal(p1, sub1, 180, 100, timestamp).unwrap();
    let d2 = pool.deposit_internal(p2, sub2, 180, 300, timestamp).unwrap();

    let result = pool.compute_reward_plan(d1.amount + d2.amount);

    assert!(result.is_ok());
}

#[test]
fn reward_split_is_exactly_proportional() {
    // Two stakers with 100 and 300 and a pool of 400: payouts 100 and 300.
    let mut pool = StakePool::new();
    let sub1 = vec![4u8; 32];
    let sub2 = vec![8u8; 32];
    pool.deposit_internal(anon(), sub1.clone(), 180, 100, 0).unwrap();
    pool.deposit_internal(anon(), sub2.clone(), 180, 300, 0).unwrap();

    assert_eq!(pool.total_staked(), 400);

    let plan = pool.compute_reward_plan(400).unwrap();
    assert_eq!(plan.len(), 2);
    assert_eq!(plan[0].0.owner, anon());
    assert_eq!(plan[0].0.subaccount, sub1);
    assert_eq!(plan[0].1, 100);
    assert_eq!(plan[1].0.owner, anon());
    assert_eq!(plan[1].0.subaccount, sub2);
    assert_eq!(plan[1].1, 300);
}

#[test]
fn reward_with_no_stake_fails_and_pays_nobody() {
    let mut pool = StakePool::new();
    assert_eq!(pool.compute_reward_plan(400), Err(DepositError::NoStakerFound));

    // A zero-amount deposit contributes no stake, so distribution still
    // finds no staker and plans no payout.
    pool.deposit_internal(anon(), vec![1u8; 32], 90, 0, 0).unwrap();
    assert_eq!(pool.total_staked(), 0);
    assert_eq!(pool.compute_reward_plan(400), Err(DepositError::NoStakerFound));
}

#[test]
fn reward_skips_zero_shares_and_keeps_dust() {
    let mut pool = StakePool::new();
    // Stakes 1 and 2 out of 3; distributing 10 gives floor shares 3 and 6,
    // leaving 1 of dust undistributed.
    pool.deposit_internal(anon(), vec![1u8; 32], 90, 1, 0).unwrap();
    pool.deposit_internal(anon(), vec![2u8; 32], 90, 2, 0).unwrap();
    let plan = pool.compute_reward_plan(10).unwrap();
    assert_eq!(plan.len(), 2);
    assert_eq!(plan[0].1, 3);
    assert_eq!(plan[1].1, 6);

    // A stake of 1 out of 1001 gets a floor share of 0 of 1000 and is
    // skipped, not paid and not an error.
    let mut pool2 = StakePool::new();
    pool2.deposit_internal(anon(), vec![1u8; 32], 90, 1, 0).unwrap();
    pool2.deposit_internal(anon(), vec![2u8; 32], 90, 1000, 0).unwrap();
    let plan2 = pool2.compute_reward_plan(1000).unwrap();
    assert_eq!(plan2.len(), 1);
    assert_eq!(plan2[0].0.subaccount, vec![2u8; 32]);
    assert_eq!(plan2[0].1, 999);
}

#[test]
fn stake_balance_tracks_deposit_sums() {
    // The stake index stays the sum of the listed deposits across a mixed
    // sequence of deposits and withdrawals, per account.
    let mut pool = StakePool::new();
    let sub_a = vec![1u8; 32];
    let sub_b = vec![2u8; 32];

    assert_eq!(pool.get_stake_balance(&anon(), &sub_a), 0);

    let d1 = pool.deposit_internal(anon(), sub_a.clone(), 90, 100, 0).unwrap();
    assert_eq!(pool.get_stake_balance(&anon(), &sub_a), 100);

    let _d2 = pool.deposit_internal(anon(), sub_a.clone(), 180, 50, 0).unwrap();
    assert_eq!(pool.get_stake_balance(&anon(), &sub_a), 150);

    let _d3 = pool.deposit_internal(anon(), sub_b.clone(), 360, 7, 0).unwrap();
    assert_eq!(pool.get_stake_balance(&anon(), &sub_a), 150);
    assert_eq!(pool.get_stake_balance(&anon(), &sub_b), 7);

    let w = pool.withdraw_internal(&anon(), &sub_a, d1.id, 90 * 86400).unwrap();
    assert_eq!(w, 100);
    assert_eq!(pool.get_stake_balance(&anon(), &sub_a), 50);
    assert_eq!(pool.get_stake_balance(&anon(), &sub_b), 7);

    let listed: u64 = pool
        .get_deposits_by_user(&anon())
        .iter()
        .filter(|(s, _)| *s == sub_a)
        .map(|(_, d)| d.amount)
        .sum();
    assert_eq!(listed, pool.get_stake_balance(&anon(), &sub_a));
}

#[test]
fn invalid_lock_period_changes_nothing() {
    let mut pool = StakePool::new();
    let sub = vec![1u8; 32];
    pool.deposit_internal(anon(), sub.clone(), 90, 100, 0).unwrap();

    let before_balance = pool.get_stake_balance(&anon(), &sub);
    let before_list = pool.get_deposits_by_user(&anon());

    for bad_days in [0u16, 1, 89, 91, 179, 181, 359, 361, u16::MAX] {
        assert_eq!(
            pool.deposit_internal(anon(), sub.clone(), bad_days, 55, 123),
            Err(DepositError::InvalidLockPeriod)
        );
    }

    assert_eq!(pool.get_stake_balance(&anon(), &sub), before_balance);
    assert_eq!(pool.get_deposits_by_user(&anon()), before_list);
}

#[test]
fn withdraw_boundary_is_exact() {
    // One second before the unlock instant fails; the instant itself works
    // and returns the original amount.
    let mut pool = StakePool::new();
    let sub = vec![1u8; 32];
    let created: u64 = 5_000;
    let d = pool.deposit_internal(anon(), sub.clone(), 180, 42, created).unwrap();
    let unlock = created + 180 * 86400;

    assert_eq!(
        pool.withdraw_internal(&anon(), &sub, d.id, unlock - 1),
        Err(DepositError::LockPeriodNotExpired)
    );
    assert_eq!(pool.get_stake_balance(&anon(), &sub), 42);
    assert_eq!(pool.withdraw_internal(&anon(), &sub, d.id, unlock), Ok(42));
    assert_eq!(pool.get_stake_balance(&anon(), &sub), 0);
}

#[test]
fn withdraw_twice_fails_second_time() {
    let mut pool = StakePool::new();
    let sub = vec![1u8; 32];
    let d = pool.deposit_internal(anon(), sub.clone(), 90, 9, 0).unwrap();
    let later = 90 * 86400 + 1;
    assert_eq!(pool.withdraw_internal(&anon(), &sub, d.id, later), Ok(9));
    assert_eq!(
        pool.withdraw_internal(&anon(), &sub, d.id, later),
        Err(DepositError::NoDepositFound)
    );
    // An account that never deposited also reports NoDepositFound.
    assert_eq!(
        pool.withdraw_internal(&anon(), &vec![7u8; 32], 1, later),
        Err(DepositError::NoDepositFound)
    );
}

#[test]
fn withdraw_with_someone_elses_id_fails() {
    let mut pool = StakePool::new();
    let sub_a = vec![1u8; 32];
    let sub_b = vec![2u8; 32];
    let d = pool.deposit_internal(anon(), sub_a, 90, 5, 0).unwrap();
    pool.deposit_internal(anon(), sub_b.clone(), 90, 7, 0).unwrap();
    // The id exists, but under another account.
    assert_eq!(
        pool.withdraw_internal(&anon(), &sub_b, d.id, 90 * 86400),
        Err(DepositError::NoDepositFound)
    );
    assert_eq!(pool.get_stake_balance(&anon(), &sub_b), 7);
}

#[test]
fn queries_are_idempotent() {
    let mut pool = StakePool::new();
    let sub = vec![1u8; 32];
    pool.deposit_internal(anon(), sub.clone(), 90, 100, 10).unwrap();
    pool.deposit_internal(anon(), vec![2u8; 32], 180, 25, 20).unwrap();

    let b1 = pool.get_stake_balance(&anon(), &sub);
    let b2 = pool.get_stake_balance(&anon(), &sub);
    assert_eq!(b1, b2);

    let l1 = pool.get_deposits_by_user(&anon());
    let l2 = pool.get_deposits_by_user(&anon());
    assert_eq!(l1, l2);
}

#[test]
fn deposit_ids_strictly_increase_and_never_repeat() {
    let mut pool = StakePool::new();
    let mut seen = Vec::new();
    let mut last = 0u64;
    for round in 0..5u8 {
        // A rejected deposit between valid ones does not disturb the ids.
        assert_eq!(
            pool.deposit_internal(anon(), vec![round; 32], 17, 1, 0),
            Err(DepositError::InvalidLockPeriod)
        );
        let d = pool.deposit_internal(anon(), vec![round; 32], 90, 1, 0).unwrap();
        assert!(d.id > last);
        assert!(!seen.contains(&d.id));
        seen.push(d.id);
        last = d.id;
    }
    // Withdrawing frees no id for reuse.
    assert_eq!(pool.withdraw_internal(&anon(), &vec![0u8; 32], 1, 90 * 86400), Ok(1));
    let d = pool.deposit_internal(anon(), vec![0u8; 32], 90, 1, 0).unwrap();
    assert_eq!(d.id, 6);
}

#[test]
fn listed_deposits_carry_sub_identity_and_fields() {
    let mut pool = StakePool::new();
    let sub_a = vec![1u8; 32];
    let sub_b = vec![2u8; 32];
    let other_owner = vec![9u8, 9u8];
    pool.deposit_internal(anon(), sub_a.clone(), 90, 100, 11).unwrap();
    pool.deposit_internal(anon(), sub_b.clone(), 180, 200, 22).unwrap();
    pool.deposit_internal(other_owner.clone(), sub_a.clone(), 360, 300, 33).unwrap();

    let mine = pool.get_deposits_by_user(&anon());
    assert_eq!(
        mine,
        vec![
            (
                sub_a.clone(),
                Deposit { id: 1, amount: 100, timestamp: 11, lock_period_days: 90 }
            ),
            (
                sub_b.clone(),
                Deposit { id: 2, amount: 200, timestamp: 22, lock_period_days: 180 }
            ),
        ]
    );

    let theirs = pool.get_deposits_by_user(&other_owner);
    assert_eq!(
        theirs,
        vec![(sub_a, Deposit { id: 3, amount: 300, timestamp: 33, lock_period_days: 360 })]
    );
}
