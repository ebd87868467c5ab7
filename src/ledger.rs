use vstd::prelude::*;

use crate::account::{AccountId, Balance};

verus! {

/// The one way a transfer can fail.
#[derive(Clone, Copy, Debug, PartialEq, Eq, Structural)]
pub enum Error {
    /// The source account holds less than the amount asked for.
    InsufficientBalance,
}

/// The balance recorded for `a` in a list of entries: that of the last entry
/// for `a`, or zero where there is none.
spec fn lookup(s: Seq<(AccountId, u128)>, a: AccountId) -> nat
    decreases s.len(),
{
    if s.len() == 0 {
        0
    } else if s.last().0 == a {
        s.last().1 as nat
    } else {
        lookup(s.drop_last(), a)
    }
}

/// The sum of the amounts of a list of entries.
spec fn total(s: Seq<(AccountId, u128)>) -> nat
    decreases s.len(),
{
    if s.len() == 0 {
        0
    } else {
        total(s.drop_last()) + s.last().1 as nat
    }
}

/// No account has two entries.
spec fn keys_unique(s: Seq<(AccountId, u128)>) -> bool {
    forall|i: int, j: int| 0 <= i < j < s.len() ==> s[i].0 != s[j].0
}

/// An account with no entry holds nothing.
proof fn lemma_lookup_absent(s: Seq<(AccountId, u128)>, a: AccountId)
    requires
        forall|i: int| 0 <= i < s.len() ==> s[i].0 != a,
    ensures
        lookup(s, a) == 0,
    decreases s.len(),
{
    if s.len() > 0 {
        lemma_lookup_absent(s.drop_last(), a);
    }
}

/// No recorded balance exceeds the total of the entries.
proof fn lemma_lookup_le_total(s: Seq<(AccountId, u128)>, a: AccountId)
    ensures
        lookup(s, a) <= total(s),
    decreases s.len(),
{
    if s.len() > 0 {
        lemma_lookup_le_total(s.drop_last(), a);
    }
}

/// Appending an entry for a new account.
proof fn lemma_push(s: Seq<(AccountId, u128)>, a: AccountId, v: u128)
    requires
        keys_unique(s),
        forall|i: int| 0 <= i < s.len() ==> s[i].0 != a,
    ensures
        keys_unique(s.push((a, v))),
        total(s.push((a, v))) == total(s) + v,
        forall|b: AccountId|
            #[trigger] lookup(s.push((a, v)), b) == if b == a {
                v as nat
            } else {
                lookup(s, b)
            },
{
    let t = s.push((a, v));
    assert(t.drop_last() =~= s);
}

/// Overwriting the amount of an existing entry.
proof fn lemma_update(s: Seq<(AccountId, u128)>, i: int, v: u128)
    requires
        keys_unique(s),
        0 <= i < s.len(),
    ensures
        keys_unique(s.update(i, (s[i].0, v))),
        total(s.update(i, (s[i].0, v))) + s[i].1 == total(s) + v,
        lookup(s, s[i].0) == s[i].1,
        forall|b: AccountId|
            #[trigger] lookup(s.update(i, (s[i].0, v)), b) == if b == s[i].0 {
                v as nat
            } else {
                lookup(s, b)
            },
    decreases s.len(),
{
    let t = s.update(i, (s[i].0, v));
    let n = s.len() - 1;
    if i == n {
        assert(t.drop_last() =~= s.drop_last());
        assert forall|j: int| 0 <= j < s.drop_last().len() implies s.drop_last()[j].0 != s[i].0 by {
            assert(s.drop_last()[j] == s[j]);
        }
        lemma_lookup_absent(s.drop_last(), s[i].0);
        assert forall|b: AccountId| #[trigger]
            lookup(t, b) == if b == s[i].0 {
                v as nat
            } else {
                lookup(s, b)
            } by {
            assert(t.last() == (s[i].0, v));
        }
    } else {
        let d = s.drop_last();
        assert(t.drop_last() =~= d.update(i, (d[i].0, v)));
        lemma_update(d, i, v);
        assert(s.last() == s[n]);
        assert(t.last() == s.last());
        assert forall|b: AccountId| #[trigger]
            lookup(t, b) == if b == s[i].0 {
                v as nat
            } else {
                lookup(s, b)
            } by {
            assert(d[i] == s[i]);
            assert(s[i].0 != s[n].0);
            assert(lookup(d.update(i, (d[i].0, v)), b) == if b == d[i].0 {
                v as nat
            } else {
                lookup(d, b)
            });
        }
    }
}

/// The balance of account `a` after `value` has moved from `from` to `to`,
/// where `b` was its balance before; a move from an account to itself
/// changes nothing.
pub open spec fn moved(b: nat, a: AccountId, from: AccountId, to: AccountId, value: u128) -> nat {
    if from == to {
        b
    } else if a == from {
        (b - value) as nat
    } else if a == to {
        b + value as nat
    } else {
        b
    }
}

/// The sum of the balances of `l` over a list of accounts.
pub open spec fn sum_of_balances(l: &Vban, accounts: Seq<AccountId>) -> nat
    decreases accounts.len(),
{
    if accounts.len() == 0 {
        0
    } else {
        sum_of_balances(l, accounts.drop_last()) + l.balance(accounts.last())
    }
}

/// The sum of the balances recorded in `s` over a list of accounts.
spec fn sum_lookup(s: Seq<(AccountId, u128)>, accounts: Seq<AccountId>) -> nat
    decreases accounts.len(),
{
    if accounts.len() == 0 {
        0
    } else {
        sum_lookup(s, accounts.drop_last()) + lookup(s, accounts.last())
    }
}

/// Without entries every sum is zero.
proof fn lemma_sum_lookup_empty(accounts: Seq<AccountId>)
    ensures
        sum_lookup(Seq::empty(), accounts) == 0,
    decreases accounts.len(),
{
    if accounts.len() > 0 {
        lemma_sum_lookup_empty(accounts.drop_last());
    }
}

/// Adding an entry for an account `k` that had none adds its amount to the
/// sum over any list of distinct accounts that names `k`.
proof fn lemma_sum_lookup_push(d: Seq<(AccountId, u128)>, k: AccountId, v: u128, accounts: Seq<AccountId>)
    requires
        forall|i: int| 0 <= i < d.len() ==> d[i].0 != k,
        accounts.no_duplicates(),
    ensures
        sum_lookup(d.push((k, v)), accounts) == sum_lookup(d, accounts) + if accounts.contains(k) {
            v as nat
        } else {
            0
        },
    decreases accounts.len(),
{
    let s = d.push((k, v));
    if accounts.len() > 0 {
        let r = accounts.drop_last();
        let x = accounts.last();
        assert(r.no_duplicates()) by {
            assert forall|i: int, j: int| 0 <= i < r.len() && 0 <= j < r.len() && i != j implies r[i] != r[j] by {
                assert(r[i] == accounts[i] && r[j] == accounts[j]);
            }
        }
        lemma_sum_lookup_push(d, k, v, r);
        assert(s.drop_last() =~= d);
        lemma_lookup_absent(d, k);
        assert(accounts.contains(k) <==> r.contains(k) || x == k) by {
            if accounts.contains(k) && x != k {
                let i = choose|i: int| 0 <= i < accounts.len() && accounts[i] == k;
                assert(i < r.len() && r[i] == k);
            }
            if r.contains(k) {
                let i = choose|i: int| 0 <= i < r.len() && r[i] == k;
                assert(accounts[i] == k);
            }
            if x == k {
                assert(accounts[accounts.len() - 1] == k);
            }
        }
        if x == k {
            assert(!r.contains(k)) by {
                if r.contains(k) {
                    let i = choose|i: int| 0 <= i < r.len() && r[i] == k;
                    assert(accounts[i] == accounts[accounts.len() - 1]);
                }
            }
        }
    }
}

/// Over a list of distinct accounts that names every account with a nonzero
/// entry, the balances sum to the total of the entries.
proof fn lemma_sum_covers_total(s: Seq<(AccountId, u128)>, accounts: Seq<AccountId>)
    requires
        keys_unique(s),
        accounts.no_duplicates(),
        forall|i: int| 0 <= i < s.len() && s[i].1 != 0 ==> accounts.contains(s[i].0),
    ensures
        sum_lookup(s, accounts) == total(s),
    decreases s.len(),
{
    if s.len() == 0 {
        assert(s =~= Seq::empty());
        lemma_sum_lookup_empty(accounts);
    } else {
        let d = s.drop_last();
        let (k, v) = s.last();
        assert(s =~= d.push((k, v)));
        assert forall|i: int| 0 <= i < d.len() implies d[i].0 != k by {
            assert(d[i] == s[i] && s.last() == s[s.len() - 1]);
        }
        assert forall|i: int| 0 <= i < d.len() && d[i].1 != 0 implies accounts.contains(d[i].0) by {
            assert(d[i] == s[i]);
        }
        lemma_sum_covers_total(d, accounts);
        lemma_sum_lookup_push(d, k, v, accounts);
        assert(s.last() == s[s.len() - 1]);
    }
}

/// The sum over a ledger is the sum over its entries.
proof fn lemma_sum_of_balances_entries(l: &Vban, accounts: Seq<AccountId>)
    ensures
        sum_of_balances(l, accounts) == sum_lookup(l.balances@, accounts),
    decreases accounts.len(),
{
    if accounts.len() > 0 {
        lemma_sum_of_balances_entries(l, accounts.drop_last());
    }
}

/// A token ledger: a balance for each account and a total supply that is
/// fixed when the ledger is made.
pub struct Vban {
    total_supply: u128,
    /// One entry per account that has been written; an account without an
    /// entry holds nothing.
    balances: Vec<(AccountId, u128)>,
}

impl Vban {
    /// The total supply, fixed at construction.
    pub closed spec fn supply(&self) -> nat {
        self.total_supply as nat
    }

    /// The balance of account `a`; zero for an account never written.
    pub closed spec fn balance(&self, a: AccountId) -> nat {
        lookup(self.balances@, a)
    }

    /// The ledger's invariant: each account has at most one entry, and the
    /// balances add up to the total supply.
    pub closed spec fn wf(&self) -> bool {
        &&& keys_unique(self.balances@)
        &&& total(self.balances@) == self.total_supply
    }

    /// Makes a ledger whose whole supply is credited to `caller`.
    pub fn new(caller: AccountId, total_supply: Balance) -> (r: Vban)
        ensures
            r.wf(),
            r.supply() == total_supply,
            r.balance(caller) == total_supply,
            forall|a: AccountId| a != caller ==> #[trigger] r.balance(a) == 0,
    {
        let mut balances: Vec<(AccountId, u128)> = Vec::new();
        balances.push((caller, total_supply));
        let r = Vban { total_supply, balances };
        proof {
            lemma_push(Seq::empty(), caller, total_supply);
            assert(r.balances@ =~= Seq::<(AccountId, u128)>::empty().push((caller, total_supply)));
        }
        r
    }

    /// The total token supply.
    pub fn total_supply(&self) -> (r: Balance)
        ensures
            r == self.supply(),
    {
        self.total_supply
    }

    /// The index of the entry of `a`, if it has one.
    fn find(&self, a: &AccountId) -> (r: Option<usize>)
        ensures
            match r {
                Some(i) => i < self.balances@.len() && self.balances@[i as int].0 == *a,
                None => forall|i: int| 0 <= i < self.balances@.len() ==> self.balances@[i].0 != *a,
            },
    {
        let mut i: usize = 0;
        while i < self.balances.len()
            invariant
                i <= self.balances@.len(),
                forall|j: int| 0 <= j < i ==> self.balances@[j].0 != *a,
            decreases self.balances@.len() - i,
        {
            if self.balances[i].0.same_as(a) {
                return Some(i);
            }
            i += 1;
        }
        None
    }

    /// The balance recorded for `a`, read while the entries need not yet
    /// add up to the total supply.
    fn balance_of_entries(&self, a: &AccountId) -> (r: u128)
        requires
            keys_unique(self.balances@),
        ensures
            r == self.balance(*a),
    {
        match self.find(a) {
            Some(i) => {
                proof {
                    lemma_update(self.balances@, i as int, self.balances@[i as int].1);
                }
                self.balances[i].1
            },
            None => {
                proof {
                    lemma_lookup_absent(self.balances@, *a);
                }
                0
            },
        }
    }

    /// The balance of `owner`; zero for an account never written.
    pub fn balance_of(&self, owner: AccountId) -> (r: Balance)
        requires
            self.wf(),
        ensures
            r == self.balance(owner),
    {
        self.balance_of_entries(&owner)
    }

    /// Overwrites the balance of `a`, adding an entry where it has none.
    fn set_balance(&mut self, a: &AccountId, v: u128)
        requires
            keys_unique(old(self).balances@),
        ensures
            keys_unique(final(self).balances@),
            final(self).total_supply == old(self).total_supply,
            total(final(self).balances@) + old(self).balance(*a) == total(old(self).balances@) + v,
            forall|b: AccountId|
                #[trigger] final(self).balance(b) == if b == *a {
                    v as nat
                } else {
                    old(self).balance(b)
                },
    {
        match self.find(a) {
            Some(i) => {
                proof {
                    lemma_update(self.balances@, i as int, v);
                }
                self.balances.set(i, (*a, v));
            },
            None => {
                proof {
                    lemma_push(self.balances@, *a, v);
                    lemma_lookup_absent(self.balances@, *a);
                }
                self.balances.push((*a, v));
            },
        }
    }

    /// Moves `value` from `from` to `to`, or fails, changing nothing, where
    /// `from` holds less than `value`.
    fn transfer_token(&mut self, from: &AccountId, to: &AccountId, value: Balance) -> (r: Result<(), Error>)
        requires
            old(self).wf(),
        ensures
            final(self).wf(),
            final(self).supply() == old(self).supply(),
            r is Err <==> old(self).balance(*from) < value,
            r is Err ==> r == Err::<(), Error>(Error::InsufficientBalance),
            forall|a: AccountId|
                #[trigger] final(self).balance(a) == if r is Err {
                    old(self).balance(a)
                } else {
                    moved(old(self).balance(a), a, *from, *to, value)
                },
    {
        let from_balance = self.balance_of_entries(from);
        if from_balance < value {
            return Err(Error::InsufficientBalance);
        }
        self.set_balance(from, from_balance - value);
        proof {
            lemma_lookup_le_total(self.balances@, *to);
        }
        let to_balance = self.balance_of_entries(to);
        self.set_balance(to, to_balance + value);
        Ok(())
    }

    /// Moves `value` from the account of `caller` to `to`. Fails with
    /// `InsufficientBalance`, and changes nothing, exactly where `caller`
    /// holds less than `value`.
    pub fn transfer(&mut self, caller: AccountId, to: AccountId, value: Balance) -> (r: Result<(), Error>)
        requires
            old(self).wf(),
        ensures
            final(self).wf(),
            final(self).supply() == old(self).supply(),
            r is Err <==> old(self).balance(caller) < value,
            r is Err ==> r == Err::<(), Error>(Error::InsufficientBalance),
            forall|a: AccountId|
                #[trigger] final(self).balance(a) == if r is Err {
                    old(self).balance(a)
                } else {
                    moved(old(self).balance(a), a, caller, to, value)
                },
            value == 0 ==> r is Ok,
            value == 0 || caller == to ==> forall|a: AccountId|
                #[trigger] final(self).balance(a) == old(self).balance(a),
    {
        self.transfer_token(&caller, &to, value)
    }

    /// Conservation: in a well-formed ledger the balances of any list of
    /// distinct accounts that names every account holding a nonzero balance
    /// add up to the total supply. `new` makes a well-formed ledger and
    /// `transfer` keeps it so, with the same supply, so this holds after any
    /// sequence of transfers.
    pub proof fn lemma_conservation(&self, accounts: Seq<AccountId>)
        requires
            self.wf(),
            accounts.no_duplicates(),
            forall|a: AccountId| #[trigger] self.balance(a) != 0 ==> accounts.contains(a),
        ensures
            sum_of_balances(self, accounts) == self.supply(),
    {
        let s = self.balances@;
        assert forall|i: int| 0 <= i < s.len() && s[i].1 != 0 implies accounts.contains(s[i].0) by {
            lemma_update(s, i, s[i].1);
            assert(self.balance(s[i].0) != 0);
        }
        lemma_sum_covers_total(s, accounts);
        lemma_sum_of_balances_entries(self, accounts);
    }

    /// Only finitely many accounts hold a nonzero balance: this list of
    /// distinct accounts names each of them.
    pub proof fn lemma_holders(&self) -> (accounts: Seq<AccountId>)
        requires
            self.wf(),
        ensures
            accounts.no_duplicates(),
            forall|a: AccountId| #[trigger] self.balance(a) != 0 ==> accounts.contains(a),
    {
        let s = self.balances@;
        let accounts = s.map_values(|e: (AccountId, u128)| e.0);
        assert forall|a: AccountId| #[trigger] self.balance(a) != 0 implies accounts.contains(a) by {
            if !accounts.contains(a) {
                assert forall|i: int| 0 <= i < s.len() implies s[i].0 != a by {
                    assert(accounts[i] == s[i].0);
                }
                lemma_lookup_absent(s, a);
            }
        }
        accounts
    }

    /// No balance of a well-formed ledger is negative, and none exceeds the
    /// total supply.
    pub proof fn lemma_balance_bounded(&self, a: AccountId)
        requires
            self.wf(),
        ensures
            0 <= self.balance(a) <= self.supply(),
    {
        lemma_lookup_le_total(self.balances@, a);
    }
}

} // verus!
