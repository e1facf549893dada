//! Account balances of the host chain, as far as service fees move them.

use vstd::prelude::*;
use crate::error::Error;

verus! {

/// The balances after moving `amount` from `from` to `to`, or `None` when
/// `from` holds less than `amount` or the balance of `to` would pass
/// `u64::MAX`.
pub open spec fn transfer_result(v: Map<u64, nat>, from: u64, to: u64, amount: nat) -> Option<
    Map<u64, nat>,
> {
    if v[from] < amount || (from != to && v[to] + amount > u64::MAX) {
        None
    } else if from == to {
        Some(v)
    } else {
        Some(v.insert(from, (v[from] - amount) as nat).insert(to, v[to] + amount))
    }
}

/// Account => free balance; an account that is not listed holds nothing.
pub struct Balances {
    accounts: Vec<(u64, u64)>,
}

impl Balances {
    /// No account occurs twice.
    pub closed spec fn wf(&self) -> bool {
        forall|i: int, j: int|
            0 <= i < self.accounts@.len() && 0 <= j < self.accounts@.len() && i != j
                ==> self.accounts@[i].0 != self.accounts@[j].0
    }

    /// Free balance of `account`.
    pub closed spec fn balance(&self, account: u64) -> nat {
        if exists|i: int| 0 <= i < self.accounts@.len() && self.accounts@[i].0 == account {
            let i = choose|i: int| 0 <= i < self.accounts@.len() && self.accounts@[i].0 == account;
            self.accounts@[i].1 as nat
        } else {
            0
        }
    }

    proof fn lemma_at(&self, i: int)
        requires
            self.wf(),
            0 <= i < self.accounts@.len(),
        ensures
            self.balance(self.accounts@[i].0) == self.accounts@[i].1,
    {
        assert(self.accounts@[i].0 == self.accounts@[i].0);
    }

    /// Every balance is zero.
    pub fn new() -> (r: Self)
        ensures
            r.wf(),
            forall|a: u64| r.balance(a) == 0,
    {
        Balances { accounts: Vec::new() }
    }

    fn find(&self, account: u64) -> (r: Option<usize>)
        requires
            self.wf(),
        ensures
            match r {
                Some(i) => i < self.accounts@.len() && self.accounts@[i as int].0 == account
                    && self.balance(account) == self.accounts@[i as int].1,
                None => self.balance(account) == 0 && forall|j: int|
                    0 <= j < self.accounts@.len() ==> self.accounts@[j].0 != account,
            },
    {
        let mut i: usize = 0;
        while i < self.accounts.len()
            invariant
                self.wf(),
                i <= self.accounts@.len(),
                forall|j: int| 0 <= j < i ==> self.accounts@[j].0 != account,
            decreases self.accounts@.len() - i,
        {
            if self.accounts[i].0 == account {
                proof {
                    self.lemma_at(i as int);
                }
                return Some(i);
            }
            i = i + 1;
        }
        None
    }

    /// Free balance of `account`.
    pub fn free_balance(&self, account: u64) -> (r: u64)
        requires
            self.wf(),
        ensures
            r == self.balance(account),
    {
        match self.find(account) {
            Some(i) => self.accounts[i].1,
            None => 0,
        }
    }

    /// Sets the balance of `account` to `value`.
    pub fn set_balance(&mut self, account: u64, value: u64)
        requires
            old(self).wf(),
        ensures
            final(self).wf(),
            forall|a: u64|
                #[trigger] final(self).balance(a) == if a == account {
                    value as nat
                } else {
                    old(self).balance(a)
                },
    {
        let ghost prev = *self;
        match self.find(account) {
            Some(i) => {
                self.accounts.set(i, (account, value));
            },
            None => {
                self.accounts.push((account, value));
            },
        }
        assert(self.wf());
        assert forall|a: u64| #[trigger] self.balance(a) == if a == account {
            value as nat
        } else {
            prev.balance(a)
        } by {
            if exists|j: int| 0 <= j < self.accounts@.len() && self.accounts@[j].0 == a {
                let j = choose|j: int| 0 <= j < self.accounts@.len() && self.accounts@[j].0 == a;
                self.lemma_at(j);
                if a != account {
                    assert(prev.accounts@[j] == self.accounts@[j]);
                    prev.lemma_at(j);
                }
            } else if a != account {
                if exists|j: int| 0 <= j < prev.accounts@.len() && prev.accounts@[j].0 == a {
                    let j = choose|j: int| 0 <= j < prev.accounts@.len() && prev.accounts@[j].0 == a;
                    assert(self.accounts@[j] == prev.accounts@[j]);
                }
            } else {
                let j = if self.accounts@.len() > prev.accounts@.len() {
                    prev.accounts@.len() as int
                } else {
                    choose|j: int| 0 <= j < prev.accounts@.len() && prev.accounts@[j].0 == account
                };
                assert(self.accounts@[j].0 == account);
            }
        }
    }

    /// Moves `amount` from `from` to `to`. Fails, changing nothing, when `from`
    /// holds less than `amount` or the balance of `to` would overflow.
    pub fn transfer(&mut self, from: u64, to: u64, amount: u64) -> (r: Result<(), Error>)
        requires
            old(self).wf(),
        ensures
            final(self).wf(),
            r is Ok <==> old(self).balance(from) >= amount && (from == to || old(self).balance(to)
                + amount <= u64::MAX),
            r is Ok <==> transfer_result(old(self).balance_view(), from, to, amount as nat) is Some,
            r is Ok ==> final(self).balance_view() == transfer_result(
                old(self).balance_view(),
                from,
                to,
                amount as nat,
            )->Some_0,
            r is Err ==> r == Err::<(), Error>(Error::FeePaymentFailed) && final(self).balance_view()
                == old(self).balance_view(),
            r is Ok ==> forall|a: u64|
                #[trigger] final(self).balance(a) == if from == to {
                    old(self).balance(a)
                } else if a == from {
                    (old(self).balance(a) - amount) as nat
                } else if a == to {
                    old(self).balance(a) + amount as nat
                } else {
                    old(self).balance(a)
                },
    {
        let ghost v = self.balance_view();
        let from_balance = self.free_balance(from);
        if from_balance < amount {
            return Err(Error::FeePaymentFailed);
        }
        if from == to {
            assert(transfer_result(v, from, to, amount as nat) == Some(v));
            return Ok(());
        }
        let to_balance = self.free_balance(to);
        if to_balance > u64::MAX - amount {
            return Err(Error::FeePaymentFailed);
        }
        self.set_balance(from, from_balance - amount);
        self.set_balance(to, to_balance + amount);
        assert(self.balance_view() =~= v.insert(from, (v[from] - amount) as nat).insert(
            to,
            v[to] + amount as nat,
        ));
        Ok(())
    }

    /// Account => free balance.
    pub open spec fn balance_view(&self) -> Map<u64, nat> {
        Map::new(|a: u64| true, |a: u64| self.balance(a))
    }

    /// A copy of the balances.
    pub fn duplicate(&self) -> (r: Self)
        requires
            self.wf(),
        ensures
            r.wf(),
            r.balance_view() == self.balance_view(),
    {
        let mut accounts: Vec<(u64, u64)> = Vec::new();
        let mut i: usize = 0;
        while i < self.accounts.len()
            invariant
                i <= self.accounts@.len(),
                accounts@ == self.accounts@.subrange(0, i as int),
            decreases self.accounts@.len() - i,
        {
            accounts.push(self.accounts[i]);
            i = i + 1;
            assert(accounts@ =~= self.accounts@.subrange(0, i as int));
        }
        assert(accounts@ =~= self.accounts@);
        let r = Balances { accounts };
        assert(r.accounts@ == self.accounts@);
        assert forall|a: u64| r.balance(a) == self.balance(a) by {}
        assert(r.balance_view() =~= self.balance_view());
        r
    }

}

} // verus!
