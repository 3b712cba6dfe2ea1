//! The token ledger: per-account balances, the total supply, and the owner
//! who alone may mint. The ledger's invariant — the total supply equals the
//! sum of all recorded balances, and every account is recorded at most once —
//! is established by the constructor and preserved by every operation.

use vstd::prelude::*;

use crate::account::Account;

verus! {

/// Why a mutating operation was rejected. Every rejection leaves the ledger
/// unchanged.
#[derive(Clone, Copy, Debug, PartialEq, Eq, Structural)]
pub enum ErrorKind {
    /// A transfer whose recipient is the sender.
    SelfTransfer,
    /// A debit (transfer or burn) larger than the account's balance.
    InsufficientBalance,
    /// A mint attempted by an account other than the owner.
    Unauthorized,
    /// A mint that would push the total supply past the 64-bit bound.
    Overflow,
}

impl ErrorKind {
    /// The description of this rejection, as a sequence of characters.
    pub open spec fn spec_message(self) -> Seq<char> {
        match self {
            ErrorKind::SelfTransfer => "Cannot transfer to yourself"@,
            ErrorKind::InsufficientBalance => "Insufficient balance"@,
            ErrorKind::Unauthorized => "Only the owner can mint tokens"@,
            ErrorKind::Overflow => "Arithmetic overflow"@,
        }
    }

    /// A short human-readable description of the rejection.
    pub fn message(&self) -> (r: &'static str)
        ensures
            r@ == self.spec_message(),
    {
        match self {
            ErrorKind::SelfTransfer => "Cannot transfer to yourself",
            ErrorKind::InsufficientBalance => "Insufficient balance",
            ErrorKind::Unauthorized => "Only the owner can mint tokens",
            ErrorKind::Overflow => "Arithmetic overflow",
        }
    }
}

/// The sum of a sequence of balances, as an unbounded integer.
pub open spec fn sum_of(vals: Seq<u64>) -> int
    decreases vals.len(),
{
    if vals.len() == 0 {
        0
    } else {
        vals[0] + sum_of(vals.drop_first())
    }
}

/// The balance recorded beside the first occurrence of `k`, or 0 where `k`
/// is not recorded. Accounts absent from the ledger hold balance 0.
pub open spec fn lookup(keys: Seq<Seq<u8>>, vals: Seq<u64>, k: Seq<u8>) -> u64
    decreases keys.len(),
{
    if keys.len() == 0 || vals.len() == 0 {
        0
    } else if keys[0] == k {
        vals[0]
    } else {
        lookup(keys.drop_first(), vals.drop_first(), k)
    }
}

/// No key occurs twice.
pub open spec fn distinct_keys(keys: Seq<Seq<u8>>) -> bool {
    forall|i: int, j: int| 0 <= i < j < keys.len() ==> keys[i] != keys[j]
}

/// Whether `k` is recorded at all.
pub open spec fn has_key(keys: Seq<Seq<u8>>, k: Seq<u8>) -> bool {
    exists|i: int| 0 <= i < keys.len() && keys[i] == k
}

/// The (key, balance) pairs with a strictly positive balance, in storage
/// order.
pub open spec fn positive_entries(keys: Seq<Seq<u8>>, vals: Seq<u64>) -> Seq<(Seq<u8>, u64)>
    decreases keys.len(),
{
    if keys.len() == 0 || vals.len() == 0 {
        Seq::empty()
    } else {
        let rest = positive_entries(keys.drop_last(), vals.drop_last());
        if vals.last() > 0 {
            rest.push((keys.last(), vals.last()))
        } else {
            rest
        }
    }
}

/// The byte views of a sequence of listed entries.
pub open spec fn entry_views(s: Seq<(Account, u64)>) -> Seq<(Seq<u8>, u64)> {
    s.map_values(|p: (Account, u64)| (p.0@, p.1))
}

/// A sum of balances is never negative.
pub proof fn lemma_sum_nonneg(vals: Seq<u64>)
    ensures
        sum_of(vals) >= 0,
    decreases vals.len(),
{
    if vals.len() > 0 {
        lemma_sum_nonneg(vals.drop_first());
    }
}

/// Overwriting one balance moves the sum by exactly the difference.
pub proof fn lemma_sum_update(vals: Seq<u64>, i: int, v: u64)
    requires
        0 <= i < vals.len(),
    ensures
        sum_of(vals.update(i, v)) == sum_of(vals) - vals[i] + v,
    decreases i,
{
    if i == 0 {
        assert(vals.update(0, v).drop_first() =~= vals.drop_first());
    } else {
        assert(vals.update(i, v).drop_first() =~= vals.drop_first().update(i - 1, v));
        lemma_sum_update(vals.drop_first(), i - 1, v);
    }
}

/// Appending a balance adds it to the sum.
pub proof fn lemma_sum_push(vals: Seq<u64>, v: u64)
    ensures
        sum_of(vals.push(v)) == sum_of(vals) + v,
    decreases vals.len(),
{
    if vals.len() == 0 {
        assert(vals.push(v)[0] == v);
        assert(vals.push(v).drop_first() =~= Seq::<u64>::empty());
        assert(sum_of(Seq::<u64>::empty()) == 0);
    } else {
        assert(vals.push(v)[0] == vals[0]);
        assert(vals.push(v).drop_first() =~= vals.drop_first().push(v));
        lemma_sum_push(vals.drop_first(), v);
        assert(sum_of(vals.push(v)) == vals[0] + sum_of(vals.drop_first().push(v)));
    }
}

/// Every single balance is bounded by the sum.
pub proof fn lemma_entry_le_sum(vals: Seq<u64>, i: int)
    requires
        0 <= i < vals.len(),
    ensures
        vals[i] <= sum_of(vals),
    decreases i,
{
    lemma_sum_nonneg(vals.drop_first());
    if i > 0 {
        lemma_entry_le_sum(vals.drop_first(), i - 1);
    }
}

/// With distinct keys, the balance looked up under a recorded key is the
/// amount stored beside it.
pub proof fn lemma_lookup_at_index(keys: Seq<Seq<u8>>, vals: Seq<u64>, i: int)
    requires
        keys.len() == vals.len(),
        distinct_keys(keys),
        0 <= i < keys.len(),
    ensures
        lookup(keys, vals, keys[i]) == vals[i],
    decreases i,
{
    if i > 0 {
        assert(distinct_keys(keys.drop_first())) by {
            assert forall|m: int, n: int|
                0 <= m < n < keys.drop_first().len() implies keys.drop_first()[m]
                != keys.drop_first()[n] by {
                assert(keys[m + 1] != keys[n + 1]);
            }
        }
        lemma_lookup_at_index(keys.drop_first(), vals.drop_first(), i - 1);
    }
}

/// The balance of an unrecorded key is 0.
pub proof fn lemma_lookup_absent(keys: Seq<Seq<u8>>, vals: Seq<u64>, k: Seq<u8>)
    requires
        !has_key(keys, k),
    ensures
        lookup(keys, vals, k) == 0,
    decreases keys.len(),
{
    if keys.len() > 0 && vals.len() > 0 {
        assert(keys[0] != k);
        assert(!has_key(keys.drop_first(), k)) by {
            if has_key(keys.drop_first(), k) {
                let i: int = choose|i: int|
                    0 <= i < keys.drop_first().len() && keys.drop_first()[i] == k;
                assert(keys[i + 1] == k);
            }
        }
        lemma_lookup_absent(keys.drop_first(), vals.drop_first(), k);
    }
}

/// Any looked-up balance is bounded by the sum of all balances.
pub proof fn lemma_lookup_le_sum(keys: Seq<Seq<u8>>, vals: Seq<u64>, k: Seq<u8>)
    requires
        keys.len() == vals.len(),
    ensures
        lookup(keys, vals, k) <= sum_of(vals),
    decreases keys.len(),
{
    lemma_sum_nonneg(vals);
    if keys.len() > 0 {
        lemma_sum_nonneg(vals.drop_first());
        lemma_lookup_le_sum(keys.drop_first(), vals.drop_first(), k);
    }
}

/// Overwriting the balance at index `i` changes the lookup under that key
/// alone.
pub proof fn lemma_lookup_update(keys: Seq<Seq<u8>>, vals: Seq<u64>, i: int, v: u64, k: Seq<u8>)
    requires
        keys.len() == vals.len(),
        distinct_keys(keys),
        0 <= i < keys.len(),
    ensures
        lookup(keys, vals.update(i, v), k) == if k == keys[i] {
            v
        } else {
            lookup(keys, vals, k)
        },
    decreases i,
{
    if i == 0 {
        if k != keys[0] {
            assert(vals.update(0, v).drop_first() =~= vals.drop_first());
        }
    } else {
        assert(keys[0] != keys[i]);
        if keys[0] != k {
            assert(vals.update(i, v).drop_first() =~= vals.drop_first().update(i - 1, v));
            assert(distinct_keys(keys.drop_first())) by {
                assert forall|m: int, n: int|
                    0 <= m < n < keys.drop_first().len() implies keys.drop_first()[m]
                    != keys.drop_first()[n] by {
                    assert(keys[m + 1] != keys[n + 1]);
                }
            }
            lemma_lookup_update(keys.drop_first(), vals.drop_first(), i - 1, v, k);
        }
    }
}

/// Recording a fresh key at the end gives it the appended balance and leaves
/// every other lookup unchanged.
pub proof fn lemma_lookup_push(keys: Seq<Seq<u8>>, vals: Seq<u64>, nk: Seq<u8>, nv: u64, k: Seq<u8>)
    requires
        keys.len() == vals.len(),
        !has_key(keys, nk),
    ensures
        lookup(keys.push(nk), vals.push(nv), k) == if k == nk {
            nv
        } else {
            lookup(keys, vals, k)
        },
    decreases keys.len(),
{
    if keys.len() == 0 {
        assert(keys.push(nk)[0] == nk);
        assert(vals.push(nv)[0] == nv);
        if k != nk {
            assert(keys.push(nk).drop_first() =~= Seq::<Seq<u8>>::empty());
            assert(vals.push(nv).drop_first() =~= Seq::<u64>::empty());
            assert(lookup(Seq::<Seq<u8>>::empty(), Seq::<u64>::empty(), k) == 0);
        }
    } else {
        assert(keys[0] != nk);
        assert(keys.push(nk)[0] == keys[0]);
        assert(vals.push(nv)[0] == vals[0]);
        if keys[0] != k {
            assert(keys.push(nk).drop_first() =~= keys.drop_first().push(nk));
            assert(vals.push(nv).drop_first() =~= vals.drop_first().push(nv));
            assert(!has_key(keys.drop_first(), nk)) by {
                if has_key(keys.drop_first(), nk) {
                    let i: int = choose|i: int|
                        0 <= i < keys.drop_first().len() && keys.drop_first()[i] == nk;
                    assert(keys[i + 1] == nk);
                }
            }
            lemma_lookup_push(keys.drop_first(), vals.drop_first(), nk, nv, k);
        }
    }
}

/// The number of tokens minted to the owner when a ledger is initialized.
pub const INITIAL_SUPPLY: u64 = 1_000_000;

/// The ledger: the owner, the total supply, and one recorded balance per
/// account, held as two vectors kept at equal length.
pub struct TokenWallet {
    accounts: Vec<Account>,
    amounts: Vec<u64>,
    owner: Account,
    total_supply: u64,
}

impl TokenWallet {
    /// The byte views of the recorded accounts, in storage order.
    pub closed spec fn spec_keys(self) -> Seq<Seq<u8>> {
        self.accounts@.map_values(|a: Account| a@)
    }

    /// The recorded balances, in storage order.
    pub closed spec fn spec_amounts(self) -> Seq<u64> {
        self.amounts@
    }

    /// The byte view of the owner.
    pub closed spec fn spec_owner(self) -> Seq<u8> {
        self.owner@
    }

    /// The recorded total supply.
    pub closed spec fn spec_supply(self) -> u64 {
        self.total_supply
    }

    /// The balance of the account with byte view `k`: the recorded amount,
    /// or 0 where none is recorded.
    pub open spec fn spec_balance(self, k: Seq<u8>) -> u64 {
        lookup(self.spec_keys(), self.spec_amounts(), k)
    }

    /// Well-formedness: one balance per recorded account, no account recorded
    /// twice, and the total supply equal to the sum of all recorded balances.
    pub open spec fn inv(self) -> bool {
        &&& self.spec_keys().len() == self.spec_amounts().len()
        &&& distinct_keys(self.spec_keys())
        &&& self.spec_supply() == sum_of(self.spec_amounts())
    }

    /// The index at which `a` is recorded, if it is.
    fn find_index(&self, a: &Account) -> (r: Option<usize>)
        ensures
            match r {
                Some(i) => i < self.spec_keys().len() && self.spec_keys()[i as int] == a@,
                None => !has_key(self.spec_keys(), a@),
            },
    {
        let n: usize = self.accounts.len();
        let mut i: usize = 0;
        while i < n
            invariant
                i <= n,
                n == self.accounts.len(),
                forall|j: int| 0 <= j < i ==> self.spec_keys()[j] != a@,
            decreases n - i,
        {
            if self.accounts[i] == *a {
                return Some(i);
            }
            i += 1;
        }
        None
    }

    /// The account's balance, or 0 where the account has no entry. Never
    /// fails.
    pub fn balance_of(&self, account: &Account) -> (r: u64)
        requires
            self.inv(),
        ensures
            r == self.spec_balance(account@),
    {
        match self.find_index(account) {
            Some(i) => {
                proof {
                    lemma_lookup_at_index(self.spec_keys(), self.spec_amounts(), i as int);
                }
                self.amounts[i]
            },
            None => {
                proof {
                    lemma_lookup_absent(self.spec_keys(), self.spec_amounts(), account@);
                }
                0
            },
        }
    }

    /// The circulating total supply. Never fails.
    pub fn total_supply(&self) -> (r: u64)
        ensures
            r == self.spec_supply(),
    {
        self.total_supply
    }

    /// The configured owner. Never fails.
    pub fn get_owner(&self) -> (r: Account)
        ensures
            r@ == self.spec_owner(),
    {
        self.owner.clone()
    }

    /// Whether the ledger records no balances at all — the state in which
    /// initialization is allowed.
    pub fn is_fresh(&self) -> (r: bool)
        ensures
            r == (self.spec_keys().len() == 0 && self.spec_amounts().len() == 0),
    {
        self.accounts.is_empty() && self.amounts.is_empty()
    }

    /// Brings a fresh ledger to its operating state: records `caller` — the
    /// identity the hosting environment authenticated — as the owner and
    /// mints the initial supply entirely to the owner. Initialization
    /// happens once per ledger lifetime, on a ledger that records no
    /// balances yet; repeating it would re-issue the initial mint and break
    /// conservation.
    pub fn init(&mut self, caller: &Account)
        requires
            old(self).spec_keys().len() == 0,
            old(self).spec_amounts().len() == 0,
        ensures
            final(self).inv(),
            final(self).spec_owner() == caller@,
            final(self).spec_supply() == INITIAL_SUPPLY,
            final(self).spec_keys() == seq![caller@],
            final(self).spec_amounts() == seq![INITIAL_SUPPLY],
            forall|k: Seq<u8>|
                final(self).spec_balance(k) == (if k == caller@ {
                    INITIAL_SUPPLY
                } else {
                    0u64
                }),
    {
        self.owner = caller.clone();
        self.total_supply = INITIAL_SUPPLY;
        self.accounts.push(caller.clone());
        self.amounts.push(INITIAL_SUPPLY);
        proof {
            assert(self.spec_keys() =~= seq![caller@]);
            assert(self.spec_amounts() =~= seq![INITIAL_SUPPLY]);
            assert(sum_of(seq![INITIAL_SUPPLY]) == INITIAL_SUPPLY) by {
                assert(seq![INITIAL_SUPPLY].drop_first() =~= Seq::<u64>::empty());
                assert(sum_of(Seq::<u64>::empty()) == 0);
            }
            assert forall|k: Seq<u8>|
                self.spec_balance(k) == (if k == caller@ {
                    INITIAL_SUPPLY
                } else {
                    0u64
                }) by {
                if k != caller@ {
                    assert(seq![caller@].drop_first() =~= Seq::<Seq<u8>>::empty());
                    assert(seq![INITIAL_SUPPLY].drop_first() =~= Seq::<u64>::empty());
                    assert(lookup(Seq::<Seq<u8>>::empty(), Seq::<u64>::empty(), k) == 0);
                }
            }
        }
    }

    /// Sets `from`'s recorded balance `amount` lower. Callers have already
    /// checked that the balance covers the debit; the recorded total supply
    /// and the set of recorded accounts are left untouched.
    fn debit(&mut self, from: &Account, amount: u64)
        requires
            old(self).spec_keys().len() == old(self).spec_amounts().len(),
            distinct_keys(old(self).spec_keys()),
            amount <= old(self).spec_balance(from@),
        ensures
            final(self).spec_keys() == old(self).spec_keys(),
            final(self).spec_amounts().len() == old(self).spec_amounts().len(),
            final(self).spec_owner() == old(self).spec_owner(),
            final(self).spec_supply() == old(self).spec_supply(),
            sum_of(final(self).spec_amounts()) == sum_of(old(self).spec_amounts()) - amount,
            final(self).spec_balance(from@) == old(self).spec_balance(from@) - amount,
            forall|k: Seq<u8>|
                k != from@ ==> final(self).spec_balance(k) == old(self).spec_balance(k),
    {
        let ghost ks = self.spec_keys();
        let ghost vs = self.spec_amounts();
        match self.find_index(from) {
            Some(i) => {
                proof {
                    lemma_lookup_at_index(ks, vs, i as int);
                }
                let bal: u64 = self.amounts[i];
                self.amounts[i] = bal - amount;
                proof {
                    let nv: u64 = (bal - amount) as u64;
                    assert(self.spec_keys() == ks);
                    assert(self.spec_amounts() =~= vs.update(i as int, nv));
                    lemma_sum_update(vs, i as int, nv);
                    assert forall|k: Seq<u8>|
                        lookup(ks, vs.update(i as int, nv), k) == (if k == ks[i as int] {
                            nv
                        } else {
                            lookup(ks, vs, k)
                        }) by {
                        lemma_lookup_update(ks, vs, i as int, nv, k);
                    }
                }
            },
            None => {
                proof {
                    lemma_lookup_absent(ks, vs, from@);
                }
            },
        }
    }

    /// Sets `to`'s recorded balance `amount` higher, recording the account
    /// if it was absent. Callers have already checked that the new sum of
    /// balances fits; the recorded total supply is left untouched.
    fn credit(&mut self, to: &Account, amount: u64)
        requires
            old(self).spec_keys().len() == old(self).spec_amounts().len(),
            distinct_keys(old(self).spec_keys()),
            sum_of(old(self).spec_amounts()) + amount <= u64::MAX,
        ensures
            final(self).spec_keys().len() == final(self).spec_amounts().len(),
            distinct_keys(final(self).spec_keys()),
            final(self).spec_owner() == old(self).spec_owner(),
            final(self).spec_supply() == old(self).spec_supply(),
            sum_of(final(self).spec_amounts()) == sum_of(old(self).spec_amounts()) + amount,
            final(self).spec_balance(to@) == old(self).spec_balance(to@) + amount,
            forall|k: Seq<u8>|
                k != to@ ==> final(self).spec_balance(k) == old(self).spec_balance(k),
    {
        let ghost ks = self.spec_keys();
        let ghost vs = self.spec_amounts();
        match self.find_index(to) {
            Some(i) => {
                proof {
                    lemma_lookup_at_index(ks, vs, i as int);
                    lemma_entry_le_sum(vs, i as int);
                }
                let bal: u64 = self.amounts[i];
                self.amounts[i] = bal + amount;
                proof {
                    let nv: u64 = (bal + amount) as u64;
                    assert(self.spec_keys() == ks);
                    assert(self.spec_amounts() =~= vs.update(i as int, nv));
                    lemma_sum_update(vs, i as int, nv);
                    assert forall|k: Seq<u8>|
                        lookup(ks, vs.update(i as int, nv), k) == (if k == ks[i as int] {
                            nv
                        } else {
                            lookup(ks, vs, k)
                        }) by {
                        lemma_lookup_update(ks, vs, i as int, nv, k);
                    }
                }
            },
            None => {
                proof {
                    lemma_lookup_absent(ks, vs, to@);
                }
                self.accounts.push(to.clone());
                self.amounts.push(amount);
                proof {
                    assert(self.spec_keys() =~= ks.push(to@));
                    assert(self.spec_amounts() =~= vs.push(amount));
                    lemma_sum_push(vs, amount);
                    assert forall|m: int, n: int|
                        0 <= m < n < ks.push(to@).len() implies ks.push(to@)[m] != ks.push(
                        to@,
                    )[n] by {
                        if n == ks.len() {
                            if ks[m] == to@ {
                                assert(has_key(ks, to@));
                            }
                        }
                    }
                    assert forall|k: Seq<u8>|
                        lookup(ks.push(to@), vs.push(amount), k) == (if k == to@ {
                            amount
                        } else {
                            lookup(ks, vs, k)
                        }) by {
                        lemma_lookup_push(ks, vs, to@, amount, k);
                    }
                }
            },
        }
    }

    /// Moves `amount` tokens from `caller` to `to`. Rejected with
    /// `SelfTransfer` when the recipient is the sender, and with
    /// `InsufficientBalance` when the sender's balance does not cover the
    /// amount; a rejection leaves the ledger unchanged. On success the
    /// sender's balance falls and the recipient's rises by exactly `amount`,
    /// every other balance and the total supply stay as they were. An amount
    /// of 0 is permitted and succeeds without effect.
    pub fn transfer(&mut self, caller: &Account, to: &Account, amount: u64) -> (r: Result<
        (),
        ErrorKind,
    >)
        requires
            old(self).inv(),
        ensures
            final(self).inv(),
            final(self).spec_owner() == old(self).spec_owner(),
            final(self).spec_supply() == old(self).spec_supply(),
            r == (if caller@ == to@ {
                Result::<(), ErrorKind>::Err(ErrorKind::SelfTransfer)
            } else if old(self).spec_balance(caller@) < amount {
                Result::<(), ErrorKind>::Err(ErrorKind::InsufficientBalance)
            } else {
                Result::<(), ErrorKind>::Ok(())
            }),
            r is Err ==> *final(self) == *old(self),
            r is Ok ==> final(self).spec_balance(caller@) == old(self).spec_balance(caller@)
                - amount,
            r is Ok ==> final(self).spec_balance(to@) == old(self).spec_balance(to@) + amount,
            forall|k: Seq<u8>|
                k != caller@ && k != to@ ==> final(self).spec_balance(k) == old(self).spec_balance(
                    k,
                ),
    {
        if caller == to {
            return Err(ErrorKind::SelfTransfer);
        }
        let sender_balance: u64 = self.balance_of(caller);
        if sender_balance < amount {
            return Err(ErrorKind::InsufficientBalance);
        }
        proof {
            lemma_lookup_le_sum(self.spec_keys(), self.spec_amounts(), caller@);
        }
        self.debit(caller, amount);
        self.credit(to, amount);
        Ok(())
    }

    /// Creates `amount` new tokens in `to`'s balance. Only the owner may
    /// mint: any other caller is rejected with `Unauthorized`. A mint that
    /// would push the total supply past the 64-bit bound is rejected with
    /// `Overflow`. A rejection leaves the ledger unchanged; on success the
    /// recipient's balance and the total supply rise by exactly `amount`.
    pub fn mint(&mut self, caller: &Account, to: &Account, amount: u64) -> (r: Result<
        (),
        ErrorKind,
    >)
        requires
            old(self).inv(),
        ensures
            final(self).inv(),
            final(self).spec_owner() == old(self).spec_owner(),
            r == (if caller@ != old(self).spec_owner() {
                Result::<(), ErrorKind>::Err(ErrorKind::Unauthorized)
            } else if old(self).spec_supply() + amount > u64::MAX {
                Result::<(), ErrorKind>::Err(ErrorKind::Overflow)
            } else {
                Result::<(), ErrorKind>::Ok(())
            }),
            r is Err ==> *final(self) == *old(self),
            r is Ok ==> final(self).spec_supply() == old(self).spec_supply() + amount,
            r is Ok ==> final(self).spec_balance(to@) == old(self).spec_balance(to@) + amount,
            forall|k: Seq<u8>|
                k != to@ ==> final(self).spec_balance(k) == old(self).spec_balance(k),
    {
        if !(*caller == self.owner) {
            return Err(ErrorKind::Unauthorized);
        }
        if amount > u64::MAX - self.total_supply {
            return Err(ErrorKind::Overflow);
        }
        self.credit(to, amount);
        self.total_supply = self.total_supply + amount;
        Ok(())
    }

    /// Destroys `amount` tokens from `caller`'s balance. Rejected with
    /// `InsufficientBalance` when the balance does not cover the amount,
    /// leaving the ledger unchanged; no authorization is needed — any
    /// account may burn its own tokens. On success the caller's balance and
    /// the total supply fall by exactly `amount`.
    pub fn burn(&mut self, caller: &Account, amount: u64) -> (r: Result<(), ErrorKind>)
        requires
            old(self).inv(),
        ensures
            final(self).inv(),
            final(self).spec_owner() == old(self).spec_owner(),
            r == (if old(self).spec_balance(caller@) < amount {
                Result::<(), ErrorKind>::Err(ErrorKind::InsufficientBalance)
            } else {
                Result::<(), ErrorKind>::Ok(())
            }),
            r is Err ==> *final(self) == *old(self),
            r is Ok ==> final(self).spec_supply() == old(self).spec_supply() - amount,
            r is Ok ==> final(self).spec_balance(caller@) == old(self).spec_balance(caller@)
                - amount,
            forall|k: Seq<u8>|
                k != caller@ ==> final(self).spec_balance(k) == old(self).spec_balance(k),
    {
        let caller_balance: u64 = self.balance_of(caller);
        if caller_balance < amount {
            return Err(ErrorKind::InsufficientBalance);
        }
        proof {
            lemma_lookup_le_sum(self.spec_keys(), self.spec_amounts(), caller@);
        }
        self.debit(caller, amount);
        self.total_supply = self.total_supply - amount;
        Ok(())
    }

    /// Every account with a strictly positive balance, paired with that
    /// balance, in storage order. Zero-balance entries are never included:
    /// they are semantically equivalent to absence.
    pub fn list_accounts(&self) -> (r: Vec<(Account, u64)>)
        requires
            self.inv(),
        ensures
            entry_views(r@) == positive_entries(self.spec_keys(), self.spec_amounts()),
            forall|i: int| 0 <= i < r@.len() ==> r@[i].1 > 0,
    {
        let n: usize = self.accounts.len();
        let mut r: Vec<(Account, u64)> = Vec::new();
        proof {
            assert(entry_views(r@) =~= positive_entries(
                self.spec_keys().take(0),
                self.spec_amounts().take(0),
            ));
        }
        let mut i: usize = 0;
        while i < n
            invariant
                i <= n,
                n == self.accounts.len(),
                self.accounts@.len() == self.amounts@.len(),
                entry_views(r@) == positive_entries(
                    self.spec_keys().take(i as int),
                    self.spec_amounts().take(i as int),
                ),
                forall|j: int| 0 <= j < r@.len() ==> r@[j].1 > 0,
            decreases n - i,
        {
            let ghost ks = self.spec_keys();
            let ghost vs = self.spec_amounts();
            let ghost r0 = r@;
            let b: u64 = self.amounts[i];
            if b > 0 {
                let a = self.accounts[i].clone();
                r.push((a, b));
                proof {
                    assert(entry_views(r@) =~= entry_views(r0).push((ks[i as int], b)));
                }
            }
            proof {
                assert(ks.take(i as int + 1).drop_last() =~= ks.take(i as int));
                assert(vs.take(i as int + 1).drop_last() =~= vs.take(i as int));
                assert(ks.take(i as int + 1).last() == ks[i as int]);
                assert(vs.take(i as int + 1).last() == vs[i as int]);
            }
            i += 1;
        }
        proof {
            assert(self.spec_keys().take(n as int) =~= self.spec_keys());
            assert(self.spec_amounts().take(n as int) =~= self.spec_amounts());
        }
        r
    }
}

/// Conservation of supply: in every well-formed ledger state the recorded
/// total supply equals the sum of all recorded balances; each recorded
/// account's balance is the amount recorded beside it, and every other
/// account's balance is 0. Since the fresh ledger is well-formed and every
/// operation preserves well-formedness, this holds of every reachable state.
pub proof fn lemma_supply_is_sum_of_balances(w: TokenWallet)
    requires
        w.inv(),
    ensures
        w.spec_supply() == sum_of(w.spec_amounts()),
        forall|i: int|
            0 <= i < w.spec_keys().len() ==> w.spec_balance(#[trigger] w.spec_keys()[i])
                == w.spec_amounts()[i],
        forall|k: Seq<u8>| !has_key(w.spec_keys(), k) ==> #[trigger] w.spec_balance(k) == 0,
{
    assert forall|i: int|
        0 <= i < w.spec_keys().len() implies w.spec_balance(#[trigger] w.spec_keys()[i])
        == w.spec_amounts()[i] by {
        lemma_lookup_at_index(w.spec_keys(), w.spec_amounts(), i);
    }
    assert forall|k: Seq<u8>|
        !has_key(w.spec_keys(), k) implies #[trigger] w.spec_balance(k) == 0 by {
        lemma_lookup_absent(w.spec_keys(), w.spec_amounts(), k);
    }
}

/// No balance is ever negative, and none exceeds the total supply.
pub proof fn lemma_balance_bounds(w: TokenWallet, k: Seq<u8>)
    requires
        w.inv(),
    ensures
        w.spec_balance(k) >= 0,
        w.spec_balance(k) <= w.spec_supply(),
{
    lemma_lookup_le_sum(w.spec_keys(), w.spec_amounts(), k);
}

/// Every pair in the listing of positive entries stands for a recorded
/// account: the returned index points at the record it was taken from.
pub proof fn lemma_listed_entry_is_recorded(keys: Seq<Seq<u8>>, vals: Seq<u64>, i: int) -> (m: int)
    requires
        keys.len() == vals.len(),
        0 <= i < positive_entries(keys, vals).len(),
    ensures
        0 <= m < keys.len(),
        positive_entries(keys, vals)[i] == (keys[m], vals[m]),
        vals[m] > 0,
    decreases keys.len(),
{
    let pe = positive_entries(keys, vals);
    let pe0 = positive_entries(keys.drop_last(), vals.drop_last());
    if i < pe0.len() {
        let m: int = lemma_listed_entry_is_recorded(keys.drop_last(), vals.drop_last(), i);
        assert(keys.drop_last()[m] == keys[m]);
        assert(vals.drop_last()[m] == vals[m]);
        assert(pe[i] == pe0[i]);
        m
    } else {
        assert(vals.last() > 0);
        assert(pe == pe0.push((keys.last(), vals.last())));
        keys.len() - 1
    }
}

/// An account with a strictly positive recorded balance is always listed,
/// paired with that balance.
pub proof fn lemma_positive_balance_is_listed(keys: Seq<Seq<u8>>, vals: Seq<u64>, m: int)
    requires
        keys.len() == vals.len(),
        0 <= m < keys.len(),
        vals[m] > 0,
    ensures
        positive_entries(keys, vals).contains((keys[m], vals[m])),
    decreases keys.len(),
{
    let pe = positive_entries(keys, vals);
    let pe0 = positive_entries(keys.drop_last(), vals.drop_last());
    if m == keys.len() - 1 {
        assert(pe == pe0.push((keys.last(), vals.last())));
        assert(pe[pe.len() - 1] == (keys[m], vals[m]));
    } else {
        assert(keys.drop_last()[m] == keys[m]);
        assert(vals.drop_last()[m] == vals[m]);
        lemma_positive_balance_is_listed(keys.drop_last(), vals.drop_last(), m);
        let i: int = choose|i: int| 0 <= i < pe0.len() && pe0[i] == (keys[m], vals[m]);
        assert(pe[i] == (keys[m], vals[m]));
    }
}

/// Faithfulness of enumeration: in a well-formed ledger, every listed pair
/// is an account with its strictly positive balance — never a zero balance —
/// and every account with a strictly positive balance is listed with it.
pub proof fn lemma_listing_exact(w: TokenWallet)
    requires
        w.inv(),
    ensures
        forall|i: int|
            #![trigger positive_entries(w.spec_keys(), w.spec_amounts())[i]]
            0 <= i < positive_entries(w.spec_keys(), w.spec_amounts()).len() ==> {
                &&& positive_entries(w.spec_keys(), w.spec_amounts())[i].1 > 0
                &&& w.spec_balance(positive_entries(w.spec_keys(), w.spec_amounts())[i].0)
                    == positive_entries(w.spec_keys(), w.spec_amounts())[i].1
            },
        forall|m: int|
            #![trigger w.spec_amounts()[m]]
            0 <= m < w.spec_keys().len() && w.spec_amounts()[m] > 0 ==> positive_entries(
                w.spec_keys(),
                w.spec_amounts(),
            ).contains((w.spec_keys()[m], w.spec_amounts()[m])),
{
    let ks = w.spec_keys();
    let vs = w.spec_amounts();
    assert forall|i: int|
        0 <= i < positive_entries(ks, vs).len() implies {
        &&& positive_entries(ks, vs)[i].1 > 0
        &&& w.spec_balance(positive_entries(ks, vs)[i].0) == positive_entries(ks, vs)[i].1
    } by {
        let m: int = lemma_listed_entry_is_recorded(ks, vs, i);
        lemma_lookup_at_index(ks, vs, m);
    }
    assert forall|m: int|
        0 <= m < ks.len() && vs[m] > 0 implies positive_entries(ks, vs).contains(
        (ks[m], vs[m]),
    ) by {
        lemma_positive_balance_is_listed(ks, vs, m);
    }
}

impl Default for TokenWallet {
    /// A fresh ledger: no recorded balances, zero supply, and the anonymous
    /// identity standing in for the owner until initialization.
    fn default() -> (r: TokenWallet)
        ensures
            r.inv(),
            r.spec_keys() == Seq::<Seq<u8>>::empty(),
            r.spec_amounts() == Seq::<u64>::empty(),
            r.spec_supply() == 0,
            r.spec_owner() == seq![4u8],
    {
        let r = TokenWallet {
            accounts: Vec::new(),
            amounts: Vec::new(),
            owner: Account::anonymous(),
            total_supply: 0,
        };
        proof {
            assert(r.spec_keys() =~= Seq::<Seq<u8>>::empty());
        }
        r
    }
}

} // verus!
