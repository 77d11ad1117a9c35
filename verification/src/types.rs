use vstd::prelude::*;

verus! {

/// Identifies one stake position: an owner (the bytes of its principal
/// identifier) together with a 32-byte sub-identity, so that one owner can
/// hold several independent positions.
#[derive(Debug, PartialEq, Eq)]
pub struct UserKey {
    pub owner: Vec<u8>,
    pub subaccount: Vec<u8>,
}

impl View for UserKey {
    type V = (Seq<u8>, Seq<u8>);

    open spec fn view(&self) -> (Seq<u8>, Seq<u8>) {
        (self.owner@, self.subaccount@)
    }
}

impl UserKey {
    /// Whether two keys identify the same stake position.
    pub fn key_eq(&self, other: &UserKey) -> (r: bool)
        ensures
            r == (self@ == other@),
    {
        let same = self.owner == other.owner && self.subaccount == other.subaccount;
        proof {
            if self.owner@ =~= other.owner@ && self.subaccount@ =~= other.subaccount@ {
                assert(self@ == other@);
            }
        }
        same
    }
}

impl Clone for UserKey {
    fn clone(&self) -> (r: Self)
        ensures
            r@ == self@,
    {
        let owner = self.owner.clone();
        let subaccount = self.subaccount.clone();
        proof {
            assert(owner@ =~= self.owner@);
            assert(subaccount@ =~= self.subaccount@);
        }
        UserKey { owner, subaccount }
    }
}

/// One locked position: a system-wide unique id, the locked amount, the
/// creation time in seconds, and the chosen lock period in days.
#[derive(Clone, Copy, PartialEq, Eq, Structural, Debug)]
pub struct Deposit {
    pub id: u64,
    pub amount: u64,
    pub timestamp: u64,
    pub lock_period_days: u16,
}

/// The active deposits of one account, in creation order.
#[derive(Clone, Debug)]
pub struct DepositList(pub Vec<Deposit>);

impl View for DepositList {
    type V = Seq<Deposit>;

    open spec fn view(&self) -> Seq<Deposit> {
        self.0@
    }
}

} // verus!
