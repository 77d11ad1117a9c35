use vstd::prelude::*;

use crate::error::DepositError;
use crate::reward::{
    abs_plan, lemma_abs_plan_push, lemma_plan_take_step, lemma_reward_le_amount,
    lemma_stake_le_total, lemma_total_take_step, reward_plan, spec_reward, total_stake,
};
use crate::types::{Deposit, DepositList, UserKey};

verus! {

/// An account at the specification level: the owner's bytes and the
/// sub-identity bytes.
pub type AccountId = (Seq<u8>, Seq<u8>);

/// The lock periods a deposit may choose, in days.
pub open spec fn valid_lock_period(days: u16) -> bool {
    days == 90 || days == 180 || days == 360
}

/// Sum of the amounts of a sequence of deposits.
pub open spec fn sum_amounts(s: Seq<Deposit>) -> int
    decreases s.len(),
{
    if s.len() == 0 {
        0
    } else {
        sum_amounts(s.drop_last()) + s.last().amount
    }
}

/// Whether some entry of an association list carries the key `k`.
pub open spec fn key_in<T>(entries: Seq<(UserKey, T)>, k: AccountId) -> bool {
    exists|i: int| 0 <= i < entries.len() && (#[trigger] entries[i]).0@ == k
}

/// The index of the entry carrying `k`; meaningful when `key_in` holds and
/// keys are unique.
pub open spec fn idx_of<T>(entries: Seq<(UserKey, T)>, k: AccountId) -> int {
    choose|i: int| 0 <= i < entries.len() && (#[trigger] entries[i]).0@ == k
}

/// No two entries of the association list carry the same key.
pub open spec fn keys_unique<T>(entries: Seq<(UserKey, T)>) -> bool {
    forall|i: int, j: int|
        0 <= i < j < entries.len() ==> (#[trigger] entries[i]).0@ != (#[trigger] entries[j]).0@
}

/// Whether the list holds a deposit with the given id.
pub open spec fn has_deposit_id(s: Seq<Deposit>, id: u64) -> bool {
    exists|j: int| 0 <= j < s.len() && (#[trigger] s[j]).id == id
}

/// The position of the deposit with the given id; meaningful when
/// `has_deposit_id` holds and ids are unique.
pub open spec fn deposit_idx(s: Seq<Deposit>, id: u64) -> int {
    choose|j: int| 0 <= j < s.len() && (#[trigger] s[j]).id == id
}

/// The instant (in seconds) at which a deposit becomes withdrawable.
pub open spec fn unlock_time(d: Deposit) -> int {
    d.timestamp + d.lock_period_days * 86400
}

/// Ids within one list grow strictly in list order.
pub open spec fn ids_increasing(s: Seq<Deposit>) -> bool {
    forall|a: int, b: int| 0 <= a < b < s.len() ==> (#[trigger] s[a]).id < (#[trigger] s[b]).id
}

/// The id discipline of a deposit ledger: every stored id was handed out by
/// the counter, ids never repeat anywhere, and each list holds its deposits in
/// increasing id order.
pub open spec fn ids_wf(dl: Seq<(UserKey, DepositList)>, counter: u64) -> bool {
    &&& forall|i: int, j: int|
        #![trigger dl[i].1@[j]]
        0 <= i < dl.len() && 0 <= j < dl[i].1@.len() ==> 1 <= dl[i].1@[j].id <= counter
    &&& forall|i1: int, j1: int, i2: int, j2: int|
        #![trigger dl[i1].1@[j1], dl[i2].1@[j2]]
        0 <= i1 < dl.len() && 0 <= j1 < dl[i1].1@.len() && 0 <= i2 < dl.len() && 0 <= j2
            < dl[i2].1@.len() && (i1 != i2 || j1 != j2) ==> dl[i1].1@[j1].id != dl[i2].1@[j2].id
    &&& forall|i: int| 0 <= i < dl.len() ==> ids_increasing((#[trigger] dl[i]).1@)
}

/// Each deposit of `ds` paired with the sub-identity `sub`.
pub open spec fn tag_with(sub: Seq<u8>, ds: Seq<Deposit>) -> Seq<(Seq<u8>, Deposit)> {
    ds.map_values(|d: Deposit| (sub, d))
}

/// The (sub-identity, deposit) pairs of every account belonging to `owner`,
/// in ledger order.
pub open spec fn deposits_of_owner(
    entries: Seq<(UserKey, DepositList)>,
    owner: Seq<u8>,
) -> Seq<(Seq<u8>, Deposit)>
    decreases entries.len(),
{
    if entries.len() == 0 {
        Seq::empty()
    } else {
        deposits_of_owner(entries.drop_last(), owner) + if entries.last().0@.0 == owner {
            tag_with(entries.last().0@.1, entries.last().1@)
        } else {
            Seq::empty()
        }
    }
}

/// The views of a vector of (sub-identity, deposit) pairs.
pub open spec fn abs_pairs(s: Seq<(Vec<u8>, Deposit)>) -> Seq<(Seq<u8>, Deposit)> {
    s.map_values(|p: (Vec<u8>, Deposit)| (p.0@, p.1))
}

/// The staking engine's state: the deposit ledger, the derived stake index,
/// and the id counter. The two association lists play the role of maps; their
/// entry order is the order of first insertion, which makes iteration
/// deterministic.
pub struct StakePool {
    deposits: Vec<(UserKey, DepositList)>,
    balances: Vec<(UserKey, u64)>,
    deposit_id_counter: u64,
}

impl StakePool {
    /// The deposit ledger's entries.
    pub closed spec fn deposits_seq(self) -> Seq<(UserKey, DepositList)> {
        self.deposits@
    }

    /// The stake index's entries.
    pub closed spec fn balances_seq(self) -> Seq<(UserKey, u64)> {
        self.balances@
    }

    /// The last deposit id handed out; 0 before any deposit.
    pub closed spec fn id_counter(self) -> u64 {
        self.deposit_id_counter
    }

    /// The deposits of account `k`; empty when the account has no entry.
    pub open spec fn list_of(self, k: AccountId) -> Seq<Deposit> {
        if key_in(self.deposits_seq(), k) {
            self.deposits_seq()[idx_of(self.deposits_seq(), k)].1@
        } else {
            Seq::empty()
        }
    }

    /// The aggregated stake of account `k`; 0 when the account has no entry.
    pub open spec fn balance_of(self, k: AccountId) -> u64 {
        if key_in(self.balances_seq(), k) {
            self.balances_seq()[idx_of(self.balances_seq(), k)].1
        } else {
            0
        }
    }

    /// Well-formedness: unique keys in both maps, the same accounts in both,
    /// every account's stake equal to the sum of its deposits, and the id
    /// discipline.
    pub open spec fn wf(self) -> bool {
        &&& keys_unique(self.deposits_seq())
        &&& keys_unique(self.balances_seq())
        &&& forall|k: AccountId|
            #![trigger key_in(self.deposits_seq(), k)]
            #![trigger key_in(self.balances_seq(), k)]
            key_in(self.deposits_seq(), k) <==> key_in(self.balances_seq(), k)
        &&& forall|k: AccountId| #[trigger] self.balance_of(k) == sum_amounts(self.list_of(k))
        &&& ids_wf(self.deposits_seq(), self.id_counter())
    }

    /// An empty pool.
    pub fn new() -> (p: StakePool)
        ensures
            p.wf(),
            p.deposits_seq() == Seq::<(UserKey, DepositList)>::empty(),
            p.balances_seq() == Seq::<(UserKey, u64)>::empty(),
            p.id_counter() == 0,
    {
        let p = StakePool { deposits: Vec::new(), balances: Vec::new(), deposit_id_counter: 0 };
        proof {
            assert(p.deposits_seq() =~= Seq::<(UserKey, DepositList)>::empty());
            assert(p.balances_seq() =~= Seq::<(UserKey, u64)>::empty());
        }
        p
    }

    /// Validates the lock period and records a new locked deposit: appends it
    /// to the account's deposit list and adds its amount to the account's
    /// stake, assigning the next fresh id. On an invalid lock period the pool
    /// is left exactly as it was.
    pub fn deposit_internal(
        &mut self,
        owner: Vec<u8>,
        subaccount: Vec<u8>,
        lock_days: u16,
        amount: u64,
        timestamp: u64,
    ) -> (r: Result<Deposit, DepositError>)
        requires
            old(self).wf(),
            valid_lock_period(lock_days) ==> old(self).id_counter() < u64::MAX,
            valid_lock_period(lock_days) ==> old(self).balance_of((owner@, subaccount@)) + amount
                <= u64::MAX,
        ensures
            final(self).wf(),
            !valid_lock_period(lock_days) ==> r == Err::<Deposit, DepositError>(
                DepositError::InvalidLockPeriod,
            ) && *final(self) == *old(self),
            valid_lock_period(lock_days) ==> ({
                let k = (owner@, subaccount@);
                let d = (Deposit {
                    id: (old(self).id_counter() + 1) as u64,
                    amount,
                    timestamp,
                    lock_period_days: lock_days,
                });
                &&& r == Ok::<Deposit, DepositError>(d)
                &&& final(self).id_counter() == old(self).id_counter() + 1
                &&& final(self).list_of(k) == old(self).list_of(k).push(d)
                &&& final(self).balance_of(k) == old(self).balance_of(k) + amount
                &&& forall|k2: AccountId|
                    #![trigger final(self).list_of(k2)]
                    k2 != k ==> final(self).list_of(k2) == old(self).list_of(k2)
                &&& forall|k2: AccountId|
                    #![trigger final(self).balance_of(k2)]
                    k2 != k ==> final(self).balance_of(k2) == old(self).balance_of(k2)
            }),
    {
        if !(lock_days == 90 || lock_days == 180 || lock_days == 360) {
            return Err(DepositError::InvalidLockPeriod);
        }
        let ghost k: AccountId = (owner@, subaccount@);
        let ghost od = self.deposits@;
        let ghost ob = self.balances@;

        let didx = find_key_index(&self.deposits, &owner, &subaccount);
        let bidx = find_key_index(&self.balances, &owner, &subaccount);

        self.deposit_id_counter = self.deposit_id_counter + 1;
        let id = self.deposit_id_counter;
        let deposit = Deposit { id, amount, timestamp, lock_period_days: lock_days };

        match (didx, bidx) {
            (Some(i), Some(b)) => {
                proof {
                    lemma_idx_unique(od, k, i as int);
                    lemma_idx_unique(ob, k, b as int);
                }
                let mut entry = self.deposits.remove(i);
                entry.1.0.push(deposit);
                self.deposits.insert(i, entry);

                let bentry = self.balances.remove(b);
                let new_balance = bentry.1 + amount;
                self.balances.insert(b, (bentry.0, new_balance));

                proof {
                    let nd = self.deposits@;
                    let nb = self.balances@;
                    assert(nd =~= od.update(i as int, nd[i as int]));
                    assert(nb =~= ob.update(b as int, nb[b as int]));
                    assert(nd[i as int].0@ == k);
                    assert(nd[i as int].1@ == od[i as int].1@.push(deposit));
                    lemma_lookup_after_update(od, nd, i as int);
                    lemma_lookup_after_update(ob, nb, b as int);
                    lemma_sum_push(od[i as int].1@, deposit);
                    lemma_ids_wf_append(od, nd, i as int, deposit, old(self).id_counter());
                    assert(self.list_of(k) == old(self).list_of(k).push(deposit));
                    assert(self.balance_of(k) == old(self).balance_of(k) + amount);
                    assert forall|k2: AccountId| k2 != k implies #[trigger] self.list_of(k2) == old(
                        self,
                    ).list_of(k2) && #[trigger] self.balance_of(k2) == old(self).balance_of(
                        k2,
                    ) by {
                        if key_in(od, k2) {
                            assert(idx_of(nd, k2) == idx_of(od, k2));
                        }
                        if key_in(ob, k2) {
                            assert(idx_of(nb, k2) == idx_of(ob, k2));
                        }
                    }
                    assert forall|k2: AccountId| #[trigger] self.balance_of(k2) == sum_amounts(
                        self.list_of(k2),
                    ) by {
                        if k2 != k {
                            assert(self.list_of(k2) == old(self).list_of(k2));
                        }
                    }
                }
                Ok(deposit)
            },
            (None, None) => {
                let key = UserKey { owner, subaccount };
                let key2 = key.clone();
                let list = DepositList(vec![deposit]);
                self.deposits.push((key, list));
                self.balances.push((key2, amount));
                proof {
                    let nd = self.deposits@;
                    let nb = self.balances@;
                    assert(nd =~= od.push(nd[od.len() as int]));
                    assert(nb =~= ob.push(nb[ob.len() as int]));
                    assert(nd[od.len() as int].0@ == k);
                    assert(nb[ob.len() as int].0@ == k);
                    assert(nd[od.len() as int].1@ =~= seq![deposit]);
                    lemma_lookup_after_push(od, nd[od.len() as int]);
                    lemma_lookup_after_push(ob, nb[ob.len() as int]);
                    lemma_ids_wf_push_entry(
                        od,
                        nd[od.len() as int],
                        deposit,
                        old(self).id_counter(),
                    );
                    assert(old(self).list_of(k) =~= Seq::<Deposit>::empty());
                    assert(self.list_of(k) =~= old(self).list_of(k).push(deposit));
                    assert(self.balance_of(k) == amount);
                    assert forall|k2: AccountId| k2 != k implies #[trigger] self.list_of(k2) == old(
                        self,
                    ).list_of(k2) && #[trigger] self.balance_of(k2) == old(self).balance_of(
                        k2,
                    ) by {
                        if key_in(od, k2) {
                            assert(idx_of(nd, k2) == idx_of(od, k2));
                        }
                        if key_in(ob, k2) {
                            assert(idx_of(nb, k2) == idx_of(ob, k2));
                        }
                    }
                    assert forall|k2: AccountId|
                        #![trigger key_in(nd, k2)]
                        #![trigger key_in(nb, k2)]
                        key_in(nd, k2) <==> key_in(nb, k2) by {
                        if k2 != k {
                            assert(key_in(nd, k2) <==> key_in(od, k2));
                            assert(key_in(nb, k2) <==> key_in(ob, k2));
                        }
                    }
                    assert forall|k2: AccountId| #[trigger] self.balance_of(k2) == sum_amounts(
                        self.list_of(k2),
                    ) by {
                        if k2 == k {
                            lemma_sum_push(Seq::<Deposit>::empty(), deposit);
                        } else {
                            assert(self.list_of(k2) == old(self).list_of(k2));
                        }
                    }
                }
                Ok(deposit)
            },
            _ => {
                // `wf` keeps the two maps' key sets equal, so a key found in
                // one is found in the other.
                proof {
                    assert(false);
                }
                Err(DepositError::InvalidLockPeriod)
            },
        }
    }

    /// Looks up the deposit with the given id, checks that its lock period
    /// has expired, and removes it: the list keeps its order, the account's
    /// stake shrinks by the deposit's amount (saturating, though the balance
    /// invariant makes saturation unreachable), and the withdrawn amount is
    /// returned. Failed lookups and unexpired locks leave the pool exactly as
    /// it was.
    pub fn withdraw_internal(
        &mut self,
        owner: &Vec<u8>,
        subaccount: &Vec<u8>,
        deposit_id: u64,
        now: u64,
    ) -> (r: Result<u64, DepositError>)
        requires
            old(self).wf(),
        ensures
            final(self).wf(),
            final(self).id_counter() == old(self).id_counter(),
            ({
                let k = (owner@, subaccount@);
                let l = old(self).list_of(k);
                if !has_deposit_id(l, deposit_id) {
                    &&& r == Err::<u64, DepositError>(DepositError::NoDepositFound)
                    &&& *final(self) == *old(self)
                } else {
                    let j = deposit_idx(l, deposit_id);
                    let d = l[j];
                    if now < unlock_time(d) {
                        &&& r == Err::<u64, DepositError>(DepositError::LockPeriodNotExpired)
                        &&& *final(self) == *old(self)
                    } else {
                        &&& r == Ok::<u64, DepositError>(d.amount)
                        &&& final(self).list_of(k) == l.remove(j)
                        &&& final(self).balance_of(k) == old(self).balance_of(k) - d.amount
                        &&& forall|k2: AccountId|
                            #![trigger final(self).list_of(k2)]
                            k2 != k ==> final(self).list_of(k2) == old(self).list_of(k2)
                        &&& forall|k2: AccountId|
                            #![trigger final(self).balance_of(k2)]
                            k2 != k ==> final(self).balance_of(k2) == old(self).balance_of(k2)
                    }
                }
            }),
    {
        let ghost k: AccountId = (owner@, subaccount@);
        let ghost od = self.deposits@;
        let ghost ob = self.balances@;

        let didx = match find_key_index(&self.deposits, owner, subaccount) {
            Some(i) => i,
            None => {
                proof {
                    assert(old(self).list_of(k) =~= Seq::<Deposit>::empty());
                }
                return Err(DepositError::NoDepositFound);
            },
        };
        proof {
            lemma_idx_unique(od, k, didx as int);
        }
        let ghost l = od[didx as int].1@;

        let pos = match find_deposit_pos(&self.deposits[didx].1, deposit_id) {
            Some(j) => j,
            None => {
                return Err(DepositError::NoDepositFound);
            },
        };
        proof {
            assert(ids_increasing(od[didx as int].1@));
            lemma_deposit_idx_unique(l, deposit_id, pos as int);
        }

        let d = self.deposits[didx].1.0[pos];
        let unlock: u128 = d.timestamp as u128 + (d.lock_period_days as u128) * 86400;
        if (now as u128) < unlock {
            return Err(DepositError::LockPeriodNotExpired);
        }

        let mut entry = self.deposits.remove(didx);
        let withdrawn = entry.1.0.remove(pos);
        self.deposits.insert(didx, entry);

        let bidx = match find_key_index(&self.balances, owner, subaccount) {
            Some(b) => b,
            None => {
                // `wf` keeps the two maps' key sets equal, so the stake entry
                // must exist.
                proof {
                    assert(key_in(od, k));
                    assert(false);
                }
                return Err(DepositError::NoDepositFound);
            },
        };
        proof {
            lemma_idx_unique(ob, k, bidx as int);
            lemma_sum_ge_element(l, pos as int);
        }
        let bentry = self.balances.remove(bidx);
        let current = bentry.1;
        let new_balance = if current >= withdrawn.amount {
            current - withdrawn.amount
        } else {
            0
        };
        self.balances.insert(bidx, (bentry.0, new_balance));

        proof {
            let nd = self.deposits@;
            let nb = self.balances@;
            assert(nd =~= od.update(didx as int, nd[didx as int]));
            assert(nb =~= ob.update(bidx as int, nb[bidx as int]));
            assert(nd[didx as int].0@ == k);
            assert(nd[didx as int].1@ == l.remove(pos as int));
            lemma_lookup_after_update(od, nd, didx as int);
            lemma_lookup_after_update(ob, nb, bidx as int);
            lemma_sum_remove(l, pos as int);
            lemma_ids_wf_remove(od, nd, didx as int, pos as int, old(self).id_counter());
            assert(self.list_of(k) == l.remove(pos as int));
            assert(self.balance_of(k) == old(self).balance_of(k) - withdrawn.amount);
            assert forall|k2: AccountId| k2 != k implies #[trigger] self.list_of(k2) == old(
                self,
            ).list_of(k2) && #[trigger] self.balance_of(k2) == old(self).balance_of(k2) by {
                if key_in(od, k2) {
                    assert(idx_of(nd, k2) == idx_of(od, k2));
                }
                if key_in(ob, k2) {
                    assert(idx_of(nb, k2) == idx_of(ob, k2));
                }
            }
            assert forall|k2: AccountId| #[trigger] self.balance_of(k2) == sum_amounts(
                self.list_of(k2),
            ) by {
                if k2 != k {
                    assert(self.list_of(k2) == old(self).list_of(k2));
                }
            }
        }
        Ok(withdrawn.amount)
    }

    /// The last deposit id handed out; 0 before any deposit. The next
    /// successful deposit gets the id one past this.
    pub fn last_deposit_id(&self) -> (r: u64)
        ensures
            r == self.id_counter(),
    {
        self.deposit_id_counter
    }

    /// The aggregated stake of the account, 0 when it has none.
    pub fn get_stake_balance(&self, owner: &Vec<u8>, subaccount: &Vec<u8>) -> (r: u64)
        requires
            self.wf(),
        ensures
            r == self.balance_of((owner@, subaccount@)),
    {
        match find_key_index(&self.balances, owner, subaccount) {
            Some(i) => {
                proof {
                    lemma_idx_unique(self.balances@, (owner@, subaccount@), i as int);
                }
                self.balances[i].1
            },
            None => 0,
        }
    }

    /// Every deposit held by any sub-identity of `owner`, paired with its
    /// sub-identity, in ledger order.
    pub fn get_deposits_by_user(&self, owner: &Vec<u8>) -> (r: Vec<(Vec<u8>, Deposit)>)
        ensures
            abs_pairs(r@) == deposits_of_owner(self.deposits_seq(), owner@),
    {
        let mut out: Vec<(Vec<u8>, Deposit)> = Vec::new();
        proof {
            assert(self.deposits@.take(0) =~= Seq::<(UserKey, DepositList)>::empty());
            assert(abs_pairs(out@) =~= deposits_of_owner(self.deposits@.take(0), owner@));
        }
        let mut i: usize = 0;
        while i < self.deposits.len()
            invariant
                i <= self.deposits@.len(),
                abs_pairs(out@) == deposits_of_owner(self.deposits@.take(i as int), owner@),
            decreases self.deposits@.len() - i,
        {
            let ghost sub_v = self.deposits@[i as int].0@.1;
            let ghost ds = self.deposits@[i as int].1@;
            if self.deposits[i].0.owner == *owner {
                proof {
                    assert(self.deposits@[i as int].0@.0 =~= owner@);
                    assert(ds.take(0) =~= Seq::<Deposit>::empty());
                    assert(tag_with(sub_v, ds.take(0)) =~= Seq::<(Seq<u8>, Deposit)>::empty());
                    lemma_seq_add_empty(abs_pairs(out@));
                }
                let mut j: usize = 0;
                while j < self.deposits[i].1.0.len()
                    invariant
                        i < self.deposits@.len(),
                        j <= ds.len(),
                        sub_v == self.deposits@[i as int].0@.1,
                        ds == self.deposits@[i as int].1@,
                        abs_pairs(out@) == deposits_of_owner(self.deposits@.take(i as int), owner@)
                            + tag_with(sub_v, ds.take(j as int)),
                    decreases ds.len() - j,
                {
                    let sub = self.deposits[i].0.subaccount.clone();
                    let d = self.deposits[i].1.0[j];
                    proof {
                        assert(sub@ =~= sub_v);
                        lemma_abs_pairs_push(out@, (sub, d));
                        lemma_tag_with_take_step(sub_v, ds, j as int);
                    }
                    out.push((sub, d));
                    j = j + 1;
                }
                proof {
                    assert(ds.take(ds.len() as int) =~= ds);
                    lemma_dof_take_step(self.deposits@, owner@, i as int);
                }
            } else {
                proof {
                    assert(self.deposits@[i as int].0@.0 != owner@);
                    lemma_dof_take_step(self.deposits@, owner@, i as int);
                    lemma_seq_add_empty(abs_pairs(out@));
                }
            }
            i = i + 1;
        }
        proof {
            assert(self.deposits@.take(self.deposits@.len() as int) =~= self.deposits@);
        }
        out
    }

    /// The sum of every account's stake, computed in twice the balance
    /// type's width so that no magnitude overflows.
    pub fn total_staked(&self) -> (t: u128)
        ensures
            t == total_stake(self.balances_seq()),
    {
        let mut t: u128 = 0;
        let mut i: usize = 0;
        proof {
            assert(self.balances@.take(0) =~= Seq::<(UserKey, u64)>::empty());
        }
        while i < self.balances.len()
            invariant
                i <= self.balances@.len(),
                t == total_stake(self.balances@.take(i as int)),
                t <= (i as int) * (u64::MAX as int),
            decreases self.balances@.len() - i,
        {
            let s = self.balances[i].1;
            proof {
                lemma_total_take_step(self.balances@, i as int);
                assert(t + s <= (i as int + 1) * (u64::MAX as int));
                assert((i as int + 1) * (u64::MAX as int) <= 0x10000000000000000 * (
                u64::MAX as int));
            }
            t = t + (s as u128);
            i = i + 1;
        }
        proof {
            assert(self.balances@.take(self.balances@.len() as int) =~= self.balances@);
        }
        t
    }

    /// Computes the payouts for distributing `amount` over the current stake
    /// snapshot: each staker's share is the floor of `stake * amount / total`
    /// in exact integer arithmetic, zero shares are skipped, and the
    /// snapshot's order is kept. Fails when nothing is staked; the small
    /// remainder that floor division leaves is not distributed.
    pub fn compute_reward_plan(&self, amount: u64) -> (r: Result<Vec<(UserKey, u64)>, DepositError>)
        ensures
            total_stake(self.balances_seq()) == 0 ==> r == Err::<
                Vec<(UserKey, u64)>,
                DepositError,
            >(DepositError::NoStakerFound),
            total_stake(self.balances_seq()) != 0 ==> ({
                &&& r matches Ok(plan)
                &&& abs_plan(plan@) == reward_plan(
                    self.balances_seq(),
                    amount,
                    total_stake(self.balances_seq()),
                )
            }),
    {
        let total = self.total_staked();
        if total == 0 {
            return Err(DepositError::NoStakerFound);
        }
        let ghost gt = total_stake(self.balances@);
        let mut plan: Vec<(UserKey, u64)> = Vec::new();
        proof {
            assert(self.balances@.take(0) =~= Seq::<(UserKey, u64)>::empty());
            assert(abs_plan(plan@) =~= reward_plan(self.balances@.take(0), amount, gt));
        }
        let mut i: usize = 0;
        while i < self.balances.len()
            invariant
                i <= self.balances@.len(),
                total == gt,
                gt == total_stake(self.balances@),
                gt > 0,
                abs_plan(plan@) == reward_plan(self.balances@.take(i as int), amount, gt),
            decreases self.balances@.len() - i,
        {
            let stake = self.balances[i].1;
            proof {
                lemma_stake_le_total(self.balances@, i as int);
                lemma_reward_le_amount(stake, amount, gt);
                assert(stake as int * amount as int <= u64::MAX as int * u64::MAX as int)
                    by (nonlinear_arith)
                    requires
                        stake <= u64::MAX && amount <= u64::MAX,
                ;
            }
            let num: u128 = (stake as u128) * (amount as u128);
            let reward128: u128 = num / total;
            proof {
                assert(reward128 == spec_reward(stake, amount, gt));
                assert(reward128 <= amount);
            }
            let reward: u64 = reward128 as u64;
            proof {
                lemma_plan_take_step(self.balances@, amount, gt, i as int);
            }
            if reward > 0 {
                let key = self.balances[i].0.clone();
                proof {
                    lemma_abs_plan_push(plan@, (key, reward));
                    assert(reward_plan(self.balances@.take(i as int), amount, gt).push(
                        (self.balances@[i as int].0@, reward),
                    ) =~= reward_plan(self.balances@.take(i as int), amount, gt) + seq![
                        (self.balances@[i as int].0@, spec_reward(stake, amount, gt) as u64),
                    ]);
                }
                plan.push((key, reward));
            } else {
                proof {
                    lemma_seq_add_empty(reward_plan(self.balances@.take(i as int), amount, gt));
                }
            }
            i = i + 1;
        }
        proof {
            assert(self.balances@.take(self.balances@.len() as int) =~= self.balances@);
        }
        Ok(plan)
    }
}

/// Appending to a vector of pairs appends the pair of views.
proof fn lemma_abs_pairs_push(s: Seq<(Vec<u8>, Deposit)>, p: (Vec<u8>, Deposit))
    ensures
        abs_pairs(s.push(p)) == abs_pairs(s).push((p.0@, p.1)),
{
    assert(abs_pairs(s.push(p)) =~= abs_pairs(s).push((p.0@, p.1)));
}

/// Tagging one more deposit appends one more pair.
proof fn lemma_tag_with_take_step(sub: Seq<u8>, ds: Seq<Deposit>, j: int)
    requires
        0 <= j < ds.len(),
    ensures
        tag_with(sub, ds.take(j + 1)) == tag_with(sub, ds.take(j)).push((sub, ds[j])),
{
    assert(tag_with(sub, ds.take(j + 1)) =~= tag_with(sub, ds.take(j)).push((sub, ds[j])));
}

/// One more ledger entry contributes its tagged deposits when it belongs to
/// `owner`, and nothing otherwise.
proof fn lemma_dof_take_step(entries: Seq<(UserKey, DepositList)>, owner: Seq<u8>, i: int)
    requires
        0 <= i < entries.len(),
    ensures
        deposits_of_owner(entries.take(i + 1), owner) == deposits_of_owner(
            entries.take(i),
            owner,
        ) + if entries[i].0@.0 == owner {
            tag_with(entries[i].0@.1, entries[i].1@)
        } else {
            Seq::<(Seq<u8>, Deposit)>::empty()
        },
{
    let t = entries.take(i + 1);
    assert(t.drop_last() =~= entries.take(i));
    assert(t.last() == entries[i]);
}

/// Concatenating the empty sequence changes nothing.
proof fn lemma_seq_add_empty<T>(s: Seq<T>)
    ensures
        s + Seq::<T>::empty() == s,
{
    assert(s + Seq::<T>::empty() =~= s);
}

/// Law: in a well-formed pool every account's stake equals the sum of the
/// amounts of its active deposits; since every operation yields a well-formed
/// pool, the equality holds after every completed operation.
pub proof fn lemma_stake_matches_deposits(p: StakePool, k: AccountId)
    requires
        p.wf(),
    ensures
        p.balance_of(k) == sum_amounts(p.list_of(k)),
{
}

/// Law: every deposit id a well-formed pool holds was handed out by its
/// counter. The id a successful deposit returns is one past the counter, so
/// it is strictly greater than every id already present: ids grow strictly
/// and never repeat over the lifetime of the pool.
pub proof fn lemma_ids_below_counter(p: StakePool, i: int, j: int)
    requires
        p.wf(),
        0 <= i < p.deposits_seq().len(),
        0 <= j < p.deposits_seq()[i].1@.len(),
    ensures
        p.deposits_seq()[i].1@[j].id <= p.id_counter(),
{
}

/// Law: the queries are functions of the pool's state alone — any two results
/// that meet `get_stake_balance`'s contract on one pool and account are
/// identical, and likewise for `get_deposits_by_user`; repeating a query with
/// no intervening mutation cannot change its answer.
pub proof fn lemma_queries_deterministic(
    p: StakePool,
    k: AccountId,
    r1: u64,
    r2: u64,
    d1: Seq<(Seq<u8>, Deposit)>,
    d2: Seq<(Seq<u8>, Deposit)>,
)
    requires
        r1 == p.balance_of(k),
        r2 == p.balance_of(k),
        d1 == deposits_of_owner(p.deposits_seq(), k.0),
        d2 == deposits_of_owner(p.deposits_seq(), k.0),
    ensures
        r1 == r2,
        d1 == d2,
{
}

/// Law: a withdrawal removes the only deposit carrying its id, so repeating
/// the withdrawal no longer finds one.
pub proof fn lemma_withdrawn_id_absent(s: Seq<Deposit>, id: u64)
    requires
        ids_increasing(s),
        has_deposit_id(s, id),
    ensures
        !has_deposit_id(s.remove(deposit_idx(s, id)), id),
{
    let j = deposit_idx(s, id);
    assert(0 <= j < s.len() && s[j].id == id);
    let t = s.remove(j);
    if has_deposit_id(t, id) {
        let c = choose|c: int| 0 <= c < t.len() && (#[trigger] t[c]).id == id;
        let z = if c < j {
            c
        } else {
            c + 1
        };
        assert(t[c] == s[z]);
        if z < j {
            assert(s[z].id < s[j].id);
        } else {
            assert(s[j].id < s[z].id);
        }
    }
}

/// In a list whose ids grow strictly, a position holding `id` is the one that
/// `deposit_idx` names.
pub proof fn lemma_deposit_idx_unique(s: Seq<Deposit>, id: u64, j: int)
    requires
        ids_increasing(s),
        0 <= j < s.len(),
        s[j].id == id,
    ensures
        has_deposit_id(s, id),
        deposit_idx(s, id) == j,
{
    assert(has_deposit_id(s, id));
    let c = deposit_idx(s, id);
    assert(0 <= c < s.len() && s[c].id == id);
    if c < j {
        assert(s[c].id < s[j].id);
    }
    if j < c {
        assert(s[j].id < s[c].id);
    }
}

/// Finds the position of the deposit with the given id.
fn find_deposit_pos(list: &DepositList, deposit_id: u64) -> (r: Option<usize>)
    ensures
        match r {
            Some(j) => 0 <= j < list@.len() && list@[j as int].id == deposit_id,
            None => !has_deposit_id(list@, deposit_id),
        },
{
    let mut j: usize = 0;
    while j < list.0.len()
        invariant
            j <= list@.len(),
            forall|t: int| 0 <= t < j ==> (#[trigger] list@[t]).id != deposit_id,
        decreases list@.len() - j,
    {
        if list.0[j].id == deposit_id {
            return Some(j);
        }
        j = j + 1;
    }
    None
}

/// In an association list with unique keys, an entry carrying `k` is the one
/// that `idx_of` names.
pub proof fn lemma_idx_unique<T>(entries: Seq<(UserKey, T)>, k: AccountId, i: int)
    requires
        keys_unique(entries),
        0 <= i < entries.len(),
        entries[i].0@ == k,
    ensures
        key_in(entries, k),
        idx_of(entries, k) == i,
{
    assert(key_in(entries, k));
    let c = idx_of(entries, k);
    assert(0 <= c < entries.len() && entries[c].0@ == k);
    if c != i {
        assert(entries[c].0@ != entries[i].0@);
    }
}

/// The sum of deposit amounts is never negative.
pub proof fn lemma_sum_nonneg(s: Seq<Deposit>)
    ensures
        sum_amounts(s) >= 0,
    decreases s.len(),
{
    if s.len() > 0 {
        lemma_sum_nonneg(s.drop_last());
    }
}

/// Appending a deposit adds its amount to the sum.
pub proof fn lemma_sum_push(s: Seq<Deposit>, d: Deposit)
    ensures
        sum_amounts(s.push(d)) == sum_amounts(s) + d.amount,
{
    assert(s.push(d).drop_last() =~= s);
    assert(s.push(d).last() == d);
}

/// Removing a deposit takes exactly its amount out of the sum.
pub proof fn lemma_sum_remove(s: Seq<Deposit>, j: int)
    requires
        0 <= j < s.len(),
    ensures
        sum_amounts(s.remove(j)) == sum_amounts(s) - s[j].amount,
    decreases s.len(),
{
    if j == s.len() - 1 {
        assert(s.remove(j) =~= s.drop_last());
    } else {
        assert(s.remove(j).drop_last() =~= s.drop_last().remove(j));
        assert(s.remove(j).last() == s.last());
        lemma_sum_remove(s.drop_last(), j);
        assert(s.drop_last()[j] == s[j]);
    }
}

/// Each deposit's amount is at most the sum of its list.
pub proof fn lemma_sum_ge_element(s: Seq<Deposit>, j: int)
    requires
        0 <= j < s.len(),
    ensures
        sum_amounts(s) >= s[j].amount,
    decreases s.len(),
{
    if j == s.len() - 1 {
        lemma_sum_nonneg(s.drop_last());
    } else {
        lemma_sum_ge_element(s.drop_last(), j);
        assert(s.drop_last()[j] == s[j]);
    }
}

/// The id discipline survives appending a deposit with the next fresh id to
/// the list at entry `i`, once the counter moves past it.
proof fn lemma_ids_wf_append(
    od: Seq<(UserKey, DepositList)>,
    nd: Seq<(UserKey, DepositList)>,
    i: int,
    d: Deposit,
    oc: u64,
)
    requires
        ids_wf(od, oc),
        oc < u64::MAX,
        d.id == oc + 1,
        nd.len() == od.len(),
        0 <= i < od.len(),
        nd[i].1@ == od[i].1@.push(d),
        forall|j: int| 0 <= j < od.len() && j != i ==> od[j] == #[trigger] nd[j],
    ensures
        ids_wf(nd, (oc + 1) as u64),
{
    let nl = od[i].1@.push(d);
    assert forall|x: int, y: int|
        0 <= x < nd.len() && 0 <= y < nd[x].1@.len() implies 1 <= #[trigger] nd[x].1@[y].id <= oc
        + 1 by {
        if x == i {
            if y < od[i].1@.len() {
                assert(nd[x].1@[y] == od[i].1@[y]);
            } else {
                assert(nd[x].1@[y] == d);
            }
        } else {
            assert(nd[x] == od[x]);
        }
    }
    assert forall|x1: int, y1: int, x2: int, y2: int|
        0 <= x1 < nd.len() && 0 <= y1 < nd[x1].1@.len() && 0 <= x2 < nd.len() && 0 <= y2
            < nd[x2].1@.len() && (x1 != x2 || y1 != y2) implies #[trigger] nd[x1].1@[y1].id
        != #[trigger] nd[x2].1@[y2].id by {
        let o1 = if x1 == i && y1 == od[i].1@.len() {
            d
        } else if x1 == i {
            od[i].1@[y1]
        } else {
            od[x1].1@[y1]
        };
        if x1 != i {
            assert(nd[x1] == od[x1]);
        }
        if x2 != i {
            assert(nd[x2] == od[x2]);
        }
        if x1 == i && y1 == od[i].1@.len() {
            // the new deposit against an old one
            assert(nd[x1].1@[y1] == d);
            assert(nd[x2].1@[y2].id <= oc);
        } else if x2 == i && y2 == od[i].1@.len() {
            assert(nd[x2].1@[y2] == d);
            assert(nd[x1].1@[y1].id <= oc);
        } else {
            // two old deposits
            if x1 == i {
                assert(nd[x1].1@[y1] == od[i].1@[y1]);
            }
            if x2 == i {
                assert(nd[x2].1@[y2] == od[i].1@[y2]);
            }
            assert(od[x1].1@[y1].id != od[x2].1@[y2].id);
        }
    }
    assert forall|x: int| 0 <= x < nd.len() implies ids_increasing((#[trigger] nd[x]).1@) by {
        if x == i {
            assert(ids_increasing(od[i].1@));
            assert forall|a: int, b: int| 0 <= a < b < nl.len() implies (#[trigger] nl[a]).id < (
            #[trigger] nl[b]).id by {
                if b == od[i].1@.len() {
                    assert(nl[a] == od[i].1@[a]);
                    assert(nl[b] == d);
                    assert(od[i].1@[a].id <= oc);
                } else {
                    assert(nl[a] == od[i].1@[a]);
                    assert(nl[b] == od[i].1@[b]);
                }
            }
        } else {
            assert(nd[x] == od[x]);
        }
    }
}

/// The id discipline survives adding a fresh account whose list holds one
/// deposit with the next fresh id.
proof fn lemma_ids_wf_push_entry(
    od: Seq<(UserKey, DepositList)>,
    entry: (UserKey, DepositList),
    d: Deposit,
    oc: u64,
)
    requires
        ids_wf(od, oc),
        oc < u64::MAX,
        d.id == oc + 1,
        entry.1@ == seq![d],
    ensures
        ids_wf(od.push(entry), (oc + 1) as u64),
{
    let nd = od.push(entry);
    assert forall|x: int, y: int|
        0 <= x < nd.len() && 0 <= y < nd[x].1@.len() implies 1 <= #[trigger] nd[x].1@[y].id <= oc
        + 1 by {
        if x == od.len() {
            assert(nd[x].1@[y] == d);
        } else {
            assert(nd[x] == od[x]);
        }
    }
    assert forall|x1: int, y1: int, x2: int, y2: int|
        0 <= x1 < nd.len() && 0 <= y1 < nd[x1].1@.len() && 0 <= x2 < nd.len() && 0 <= y2
            < nd[x2].1@.len() && (x1 != x2 || y1 != y2) implies #[trigger] nd[x1].1@[y1].id
        != #[trigger] nd[x2].1@[y2].id by {
        if x1 == od.len() {
            assert(nd[x1].1@[y1] == d);
            assert(x2 < od.len() && nd[x2] == od[x2]);
            assert(nd[x2].1@[y2].id <= oc);
        } else if x2 == od.len() {
            assert(nd[x2].1@[y2] == d);
            assert(x1 < od.len() && nd[x1] == od[x1]);
            assert(nd[x1].1@[y1].id <= oc);
        } else {
            assert(nd[x1] == od[x1]);
            assert(nd[x2] == od[x2]);
            assert(od[x1].1@[y1].id != od[x2].1@[y2].id);
        }
    }
    assert forall|x: int| 0 <= x < nd.len() implies ids_increasing((#[trigger] nd[x]).1@) by {
        if x == od.len() {
            assert(nd[x].1@.len() == 1);
        } else {
            assert(nd[x] == od[x]);
        }
    }
}

/// The id discipline survives removing one deposit from the list at entry
/// `i`.
proof fn lemma_ids_wf_remove(
    od: Seq<(UserKey, DepositList)>,
    nd: Seq<(UserKey, DepositList)>,
    i: int,
    j: int,
    oc: u64,
)
    requires
        ids_wf(od, oc),
        nd.len() == od.len(),
        0 <= i < od.len(),
        0 <= j < od[i].1@.len(),
        nd[i].1@ == od[i].1@.remove(j),
        forall|x: int| 0 <= x < od.len() && x != i ==> od[x] == #[trigger] nd[x],
    ensures
        ids_wf(nd, oc),
{
    let ol = od[i].1@;
    let nl = ol.remove(j);
    assert forall|y: int| 0 <= y < nl.len() implies #[trigger] nl[y] == ol[if y < j {
        y
    } else {
        y + 1
    }] by {}
    assert forall|x: int, y: int|
        0 <= x < nd.len() && 0 <= y < nd[x].1@.len() implies 1 <= #[trigger] nd[x].1@[y].id
        <= oc by {
        if x == i {
            assert(nl[y] == ol[if y < j { y } else { y + 1 }]);
        } else {
            assert(nd[x] == od[x]);
        }
    }
    assert forall|x1: int, y1: int, x2: int, y2: int|
        0 <= x1 < nd.len() && 0 <= y1 < nd[x1].1@.len() && 0 <= x2 < nd.len() && 0 <= y2
            < nd[x2].1@.len() && (x1 != x2 || y1 != y2) implies #[trigger] nd[x1].1@[y1].id
        != #[trigger] nd[x2].1@[y2].id by {
        let z1 = if x1 == i && y1 >= j {
            y1 + 1
        } else {
            y1
        };
        let z2 = if x2 == i && y2 >= j {
            y2 + 1
        } else {
            y2
        };
        if x1 == i {
            assert(nd[x1].1@[y1] == ol[z1]);
        } else {
            assert(nd[x1] == od[x1]);
            assert(nd[x1].1@[y1] == od[x1].1@[z1]);
        }
        if x2 == i {
            assert(nd[x2].1@[y2] == ol[z2]);
        } else {
            assert(nd[x2] == od[x2]);
            assert(nd[x2].1@[y2] == od[x2].1@[z2]);
        }
        assert(od[x1].1@[z1].id != od[x2].1@[z2].id);
    }
    assert forall|x: int| 0 <= x < nd.len() implies ids_increasing((#[trigger] nd[x]).1@) by {
        if x == i {
            assert(ids_increasing(ol));
            assert forall|a: int, b: int| 0 <= a < b < nl.len() implies (#[trigger] nl[a]).id < (
            #[trigger] nl[b]).id by {
                let za = if a < j {
                    a
                } else {
                    a + 1
                };
                let zb = if b < j {
                    b
                } else {
                    b + 1
                };
                assert(nl[a] == ol[za]);
                assert(nl[b] == ol[zb]);
                assert(ol[za].id < ol[zb].id);
            }
        } else {
            assert(nd[x] == od[x]);
        }
    }
}

/// Replacing the entry at `i` while keeping its key leaves every lookup at
/// another key unchanged, and the key set as it was.
pub proof fn lemma_lookup_after_update<T>(old_e: Seq<(UserKey, T)>, new_e: Seq<(UserKey, T)>, i: int)
    requires
        keys_unique(old_e),
        new_e.len() == old_e.len(),
        0 <= i < old_e.len(),
        new_e[i].0@ == old_e[i].0@,
        forall|j: int| 0 <= j < old_e.len() && j != i ==> old_e[j] == #[trigger] new_e[j],
    ensures
        keys_unique(new_e),
        forall|k: AccountId|
            #![trigger key_in(new_e, k)]
            #![trigger key_in(old_e, k)]
            key_in(new_e, k) <==> key_in(old_e, k),
        key_in(new_e, old_e[i].0@),
        idx_of(new_e, old_e[i].0@) == i,
        idx_of(old_e, old_e[i].0@) == i,
        forall|k: AccountId|
            #![trigger idx_of(new_e, k)]
            key_in(old_e, k) && k != old_e[i].0@ ==> idx_of(new_e, k) == idx_of(old_e, k)
                && new_e[idx_of(new_e, k)] == old_e[idx_of(old_e, k)],
{
    assert forall|a: int, b: int| 0 <= a < b < new_e.len() implies (#[trigger] new_e[a]).0@ != (
    #[trigger] new_e[b]).0@ by {
        assert(new_e[a].0@ == old_e[a].0@);
        assert(new_e[b].0@ == old_e[b].0@);
    }
    assert forall|k: AccountId| key_in(new_e, k) <==> key_in(old_e, k) by {
        if key_in(new_e, k) {
            let w = choose|w: int| 0 <= w < new_e.len() && (#[trigger] new_e[w]).0@ == k;
            assert(old_e[w].0@ == new_e[w].0@);
            assert(key_in(old_e, k));
        }
        if key_in(old_e, k) {
            let w = choose|w: int| 0 <= w < old_e.len() && (#[trigger] old_e[w]).0@ == k;
            assert(new_e[w].0@ == old_e[w].0@);
            assert(key_in(new_e, k));
        }
    }
    lemma_idx_unique(new_e, old_e[i].0@, i);
    lemma_idx_unique(old_e, old_e[i].0@, i);
    assert forall|k: AccountId| key_in(old_e, k) && k != old_e[i].0@ implies #[trigger] idx_of(
        new_e,
        k,
    ) == idx_of(old_e, k) && new_e[idx_of(new_e, k)] == old_e[idx_of(old_e, k)] by {
        let w = idx_of(old_e, k);
        assert(0 <= w < old_e.len() && old_e[w].0@ == k);
        assert(w != i);
        assert(new_e[w] == old_e[w]);
        lemma_idx_unique(new_e, k, w);
    }
}

/// Appending an entry with a fresh key leaves every lookup at another key
/// unchanged and adds exactly the new key.
pub proof fn lemma_lookup_after_push<T>(old_e: Seq<(UserKey, T)>, entry: (UserKey, T))
    requires
        keys_unique(old_e),
        !key_in(old_e, entry.0@),
    ensures
        keys_unique(old_e.push(entry)),
        key_in(old_e.push(entry), entry.0@),
        idx_of(old_e.push(entry), entry.0@) == old_e.len(),
        forall|k: AccountId|
            #![trigger key_in(old_e.push(entry), k)]
            k != entry.0@ ==> (key_in(old_e.push(entry), k) <==> key_in(old_e, k)),
        forall|k: AccountId|
            #![trigger idx_of(old_e.push(entry), k)]
            key_in(old_e, k) ==> idx_of(old_e.push(entry), k) == idx_of(old_e, k) && old_e.push(
                entry,
            )[idx_of(old_e.push(entry), k)] == old_e[idx_of(old_e, k)],
{
    let new_e = old_e.push(entry);
    assert forall|a: int, b: int| 0 <= a < b < new_e.len() implies (#[trigger] new_e[a]).0@ != (
    #[trigger] new_e[b]).0@ by {
        if b == old_e.len() {
            assert(new_e[a] == old_e[a]);
            if new_e[a].0@ == entry.0@ {
                assert(key_in(old_e, entry.0@));
            }
        } else {
            assert(new_e[a] == old_e[a]);
            assert(new_e[b] == old_e[b]);
        }
    }
    lemma_idx_unique(new_e, entry.0@, old_e.len() as int);
    assert forall|k: AccountId| k != entry.0@ implies (key_in(new_e, k) <==> key_in(old_e, k)) by {
        if key_in(new_e, k) {
            let w = choose|w: int| 0 <= w < new_e.len() && (#[trigger] new_e[w]).0@ == k;
            assert(w < old_e.len());
            assert(old_e[w] == new_e[w]);
            assert(key_in(old_e, k));
        }
        if key_in(old_e, k) {
            let w = choose|w: int| 0 <= w < old_e.len() && (#[trigger] old_e[w]).0@ == k;
            assert(new_e[w] == old_e[w]);
            assert(key_in(new_e, k));
        }
    }
    assert forall|k: AccountId| key_in(old_e, k) implies #[trigger] idx_of(new_e, k) == idx_of(
        old_e,
        k,
    ) && new_e[idx_of(new_e, k)] == old_e[idx_of(old_e, k)] by {
        let w = idx_of(old_e, k);
        assert(0 <= w < old_e.len() && old_e[w].0@ == k);
        assert(new_e[w] == old_e[w]);
        lemma_idx_unique(new_e, k, w);
    }
}

/// Finds the entry whose key is (`owner`, `subaccount`).
fn find_key_index<T>(entries: &Vec<(UserKey, T)>, owner: &Vec<u8>, subaccount: &Vec<u8>) -> (r:
    Option<usize>)
    ensures
        match r {
            Some(i) => 0 <= i < entries@.len() && entries@[i as int].0@ == (owner@, subaccount@),
            None => !key_in(entries@, (owner@, subaccount@)),
        },
{
    let mut i: usize = 0;
    while i < entries.len()
        invariant
            i <= entries@.len(),
            forall|j: int| 0 <= j < i ==> (#[trigger] entries@[j]).0@ != (owner@, subaccount@),
        decreases entries@.len() - i,
    {
        let same = entries[i].0.owner == *owner && entries[i].0.subaccount == *subaccount;
        proof {
            if entries@[i as int].0.owner@ =~= owner@ && entries@[i as int].0.subaccount@
                =~= subaccount@ {
                assert(entries@[i as int].0@ == (owner@, subaccount@));
            }
        }
        if same {
            return Some(i);
        }
        i = i + 1;
    }
    None
}

} // verus!
